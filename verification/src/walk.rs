//! The directory tree walker.
//!
//! The experiment hierarchy is modeled as a tree of named directories, each
//! holding file names in enumeration order and subdirectories in enumeration
//! order. A directory is a leaf exactly when it has no subdirectories;
//! leaves stand for one experimental configuration. The walker computes
//! plans over this model: which raw exports to transform (depth first,
//! skipping those whose normalized file already exists), and which leaves to
//! aggregate, each with its normalized files.

use vstd::prelude::*;

use crate::bytes::line_views;

verus! {

/// One directory of the experiment hierarchy.
pub struct DirTree {
    /// The directory's own name, one path component.
    pub name: Vec<u8>,
    /// Names of the plain files inside, in enumeration order.
    pub files: Vec<Vec<u8>>,
    /// The subdirectories, in enumeration order.
    pub subdirs: Vec<DirTree>,
}

/// A directory is a leaf exactly when it has no subdirectories, whatever
/// its file count.
pub open spec fn is_leaf_spec(t: DirTree) -> bool {
    t.subdirs@.len() == 0
}

impl DirTree {
    /// Classifies this directory: a leaf has zero subdirectory children,
    /// regardless of how many files it holds.
    pub fn is_leaf(&self) -> (r: bool)
        ensures
            r <==> is_leaf_spec(*self),
    {
        self.subdirs.len() == 0
    }
}

/// Index of the last dot in a file name, or `-1` if there is none.
pub open spec fn last_dot(name: Seq<u8>) -> int
    decreases name.len(),
{
    if name.len() == 0 {
        -1
    } else if name.last() == 46 {
        name.len() - 1
    } else {
        last_dot(name.drop_last())
    }
}

pub proof fn lemma_last_dot(name: Seq<u8>)
    ensures
        -1 <= last_dot(name) < name.len(),
        last_dot(name) >= 0 ==> name[last_dot(name)] == 46,
        forall|i: int| last_dot(name) < i < name.len() ==> name[i] != 46,
    decreases name.len(),
{
    if name.len() > 0 && name.last() != 46 {
        lemma_last_dot(name.drop_last());
        assert forall|i: int| last_dot(name) < i < name.len() implies name[i] != 46 by {
            if i < name.len() - 1 {
                assert(name.drop_last()[i] != 46);
            }
        }
    }
}

/// An index with the last-dot properties is `last_dot` itself.
pub proof fn lemma_last_dot_unique(name: Seq<u8>, k: int)
    requires
        -1 <= k < name.len(),
        k >= 0 ==> name[k] == 46,
        forall|i: int| k < i < name.len() ==> name[i] != 46,
    ensures
        last_dot(name) == k,
{
    lemma_last_dot(name);
    let d = last_dot(name);
    if d < k {
        assert(name[k] != 46);
    } else if k < d {
        assert(name[d] != 46);
    }
}

/// Finds the last dot of a file name.
pub fn last_dot_at(name: &[u8]) -> (r: Option<usize>)
    ensures
        (match r {
            Some(k) => k == last_dot(name@),
            None => last_dot(name@) == -1,
        }),
{
    proof {
        lemma_last_dot(name@);
    }
    let n: usize = name.len();
    let mut i: usize = n;
    while i > 0
        invariant
            0 <= i <= n,
            n == name@.len(),
            forall|j: int| i <= j < n ==> name@[j] != 46,
            forall|j: int| last_dot(name@) < j < n ==> name@[j] != 46,
            -1 <= last_dot(name@) < n,
            last_dot(name@) >= 0 ==> name@[last_dot(name@)] == 46,
        decreases i,
    {
        if name[i - 1] == 46 {
            return Some(i - 1);
        }
        i = i - 1;
    }
    None
}

/// The name's extension equals `ext`: there is a dot after the first byte
/// and everything after the last dot is exactly `ext`.
pub open spec fn has_ext(name: Seq<u8>, ext: Seq<u8>) -> bool {
    let d = last_dot(name);
    d > 0 && name.subrange(d + 1, name.len() as int) == ext
}

/// The `csv` extension of raw exports.
pub open spec fn csv_ext() -> Seq<u8> {
    seq![99u8, 115u8, 118u8]
}

/// The `out` extension of normalized files.
pub open spec fn out_ext() -> Seq<u8> {
    seq![111u8, 117u8, 116u8]
}

/// Compares two byte strings.
pub fn bytes_eq(a: &[u8], b: &[u8]) -> (r: bool)
    ensures
        r == (a@ == b@),
{
    let n: usize = a.len();
    if n != b.len() {
        proof {
            assert(a@ != b@);
        }
        return false;
    }
    let mut i: usize = 0;
    while i < n
        invariant
            0 <= i <= n,
            n == a@.len() && n == b@.len(),
            forall|j: int| 0 <= j < i ==> a@[j] == b@[j],
        decreases n - i,
    {
        if a[i] != b[i] {
            return false;
        }
        i = i + 1;
    }
    proof {
        assert(a@ =~= b@);
    }
    true
}

/// Does `name` carry the extension `ext`?
pub fn has_extension(name: &[u8], ext: &[u8]) -> (r: bool)
    ensures
        r == has_ext(name@, ext@),
{
    proof {
        lemma_last_dot(name@);
    }
    let n: usize = name.len();
    match last_dot_at(name) {
        Some(d) => {
            if d == 0 {
                false
            } else {
                proof {
                    assert(d < n);
                }
                let tail = vstd::slice::slice_subrange(name, d + 1, n);
                bytes_eq(tail, ext)
            }
        },
        None => false,
    }
}

/// The name with its extension replaced by `out`: everything up to the
/// last dot when there is a real one, else the whole name, then `.out`.
pub open spec fn out_name(name: Seq<u8>) -> Seq<u8> {
    let stem = if last_dot(name) > 0 {
        name.subrange(0, last_dot(name))
    } else {
        name
    };
    stem + seq![46u8] + out_ext()
}

/// Builds the name of the normalized counterpart of a raw export.
pub fn make_out_name(name: &[u8]) -> (r: Vec<u8>)
    ensures
        r@ == out_name(name@),
{
    proof {
        lemma_last_dot(name@);
    }
    let stem: &[u8] = match last_dot_at(name) {
        Some(d) => {
            if d > 0 {
                vstd::slice::slice_subrange(name, 0, d)
            } else {
                name
            }
        },
        None => name,
    };
    proof {
        if last_dot(name@) == 0 {
            assert(name@.subrange(0, name@.len() as int) =~= name@);
        }
    }
    let mut r = vstd::slice::slice_to_vec(stem);
    r.push(46);
    r.push(111);
    r.push(117);
    r.push(116);
    proof {
        assert(r@ =~= out_name(name@));
    }
    r
}

/// A path joined from a directory path and an entry name.
pub open spec fn path_join(dir: Seq<u8>, name: Seq<u8>) -> Seq<u8> {
    dir + seq![47u8] + name
}

/// Joins a directory path and an entry name with a slash.
pub fn join_path(dir: &[u8], name: &[u8]) -> (r: Vec<u8>)
    ensures
        r@ == path_join(dir@, name@),
{
    let mut r = vstd::slice::slice_to_vec(dir);
    r.push(47);
    let mut tail = vstd::slice::slice_to_vec(name);
    r.append(&mut tail);
    proof {
        assert(r@ =~= path_join(dir@, name@));
    }
    r
}

/// A raw export wants transforming when it has the `csv` extension and its
/// normalized counterpart is not already among the directory's files.
pub open spec fn wants_transform(files: Seq<Seq<u8>>, name: Seq<u8>) -> bool {
    has_ext(name, csv_ext()) && !files.contains(out_name(name))
}

/// The transform jobs among the first `i` files of one directory: input and
/// output path of each raw export still lacking its normalized file.
pub open spec fn dir_transforms_upto(path: Seq<u8>, files: Seq<Seq<u8>>, i: int) -> Seq<
    (Seq<u8>, Seq<u8>),
> {
    files.take(i).filter(|n: Seq<u8>| wants_transform(files, n)).map_values(
        |n: Seq<u8>| (path_join(path, n), path_join(path, out_name(n))),
    )
}

/// The transform jobs of one directory's own files, in enumeration order.
pub open spec fn dir_transforms(path: Seq<u8>, files: Seq<Seq<u8>>) -> Seq<(Seq<u8>, Seq<u8>)> {
    dir_transforms_upto(path, files, files.len() as int)
}

/// All transform jobs of the tree, depth first: a directory's own files
/// first, then its subdirectories in enumeration order.
pub open spec fn transform_plan(t: DirTree, path: Seq<u8>) -> Seq<(Seq<u8>, Seq<u8>)>
    decreases t,
{
    dir_transforms(path, line_views(t.files@)) + subtree_transforms(t.subdirs@, path)
}

/// The transform jobs of a row of sibling subdirectories, in order.
pub open spec fn subtree_transforms(subs: Seq<DirTree>, path: Seq<u8>) -> Seq<(Seq<u8>, Seq<u8>)>
    decreases subs,
{
    if subs.len() == 0 {
        Seq::empty()
    } else {
        subtree_transforms(subs.drop_last(), path) + transform_plan(
            subs.last(),
            path_join(path, subs.last().name@),
        )
    }
}

/// The full paths of the normalized files among the first `i` files of one
/// directory.
pub open spec fn out_files_upto(path: Seq<u8>, files: Seq<Seq<u8>>, i: int) -> Seq<Seq<u8>> {
    files.take(i).filter(|n: Seq<u8>| has_ext(n, out_ext())).map_values(
        |n: Seq<u8>| path_join(path, n),
    )
}

/// The full paths of one directory's normalized files, in enumeration
/// order.
pub open spec fn out_files(path: Seq<u8>, files: Seq<Seq<u8>>) -> Seq<Seq<u8>> {
    out_files_upto(path, files, files.len() as int)
}

/// The aggregation plan: every leaf directory in depth-first order, each
/// with its path and the paths of its normalized files.
pub open spec fn leaf_plan(t: DirTree, path: Seq<u8>) -> Seq<(Seq<u8>, Seq<Seq<u8>>)>
    decreases t,
{
    if is_leaf_spec(t) {
        seq![(path, out_files(path, line_views(t.files@)))]
    } else {
        subtree_leaves(t.subdirs@, path)
    }
}

/// The leaves of a row of sibling subdirectories, in order.
pub open spec fn subtree_leaves(subs: Seq<DirTree>, path: Seq<u8>) -> Seq<(Seq<u8>, Seq<Seq<u8>>)>
    decreases subs,
{
    if subs.len() == 0 {
        Seq::empty()
    } else {
        subtree_leaves(subs.drop_last(), path) + leaf_plan(
            subs.last(),
            path_join(path, subs.last().name@),
        )
    }
}

/// The views of a vector of path pairs.
pub open spec fn pair_views(s: Seq<(Vec<u8>, Vec<u8>)>) -> Seq<(Seq<u8>, Seq<u8>)> {
    s.map_values(|p: (Vec<u8>, Vec<u8>)| (p.0@, p.1@))
}

/// The views of a vector of leaf work items.
pub open spec fn leaf_work_views(s: Seq<(Vec<u8>, Vec<Vec<u8>>)>) -> Seq<(Seq<u8>, Seq<Seq<u8>>)> {
    s.map_values(|p: (Vec<u8>, Vec<Vec<u8>>)| (p.0@, line_views(p.1@)))
}

proof fn lemma_pair_views_push(s: Seq<(Vec<u8>, Vec<u8>)>, x: (Vec<u8>, Vec<u8>))
    ensures
        pair_views(s.push(x)) == pair_views(s).push((x.0@, x.1@)),
{
    assert(pair_views(s.push(x)) =~= pair_views(s).push((x.0@, x.1@)));
}

proof fn lemma_pair_views_concat(a: Seq<(Vec<u8>, Vec<u8>)>, b: Seq<(Vec<u8>, Vec<u8>)>)
    ensures
        pair_views(a + b) == pair_views(a) + pair_views(b),
{
    assert(pair_views(a + b) =~= pair_views(a) + pair_views(b));
}

proof fn lemma_leaf_work_views_concat(a: Seq<(Vec<u8>, Vec<Vec<u8>>)>, b: Seq<(Vec<u8>, Vec<Vec<u8>>)>)
    ensures
        leaf_work_views(a + b) == leaf_work_views(a) + leaf_work_views(b),
{
    assert(leaf_work_views(a + b) =~= leaf_work_views(a) + leaf_work_views(b));
}

/// The `csv` extension as bytes.
pub fn ext_csv() -> (r: Vec<u8>)
    ensures
        r@ == csv_ext(),
{
    let r: Vec<u8> = vec![99, 115, 118];
    proof {
        assert(r@ =~= csv_ext());
    }
    r
}

/// The `out` extension as bytes.
pub fn ext_out() -> (r: Vec<u8>)
    ensures
        r@ == out_ext(),
{
    let r: Vec<u8> = vec![111, 117, 116];
    proof {
        assert(r@ =~= out_ext());
    }
    r
}

/// Does the list of file names contain this name?
pub fn contains_name(files: &Vec<Vec<u8>>, name: &[u8]) -> (r: bool)
    ensures
        r == line_views(files@).contains(name@),
{
    let n = files.len();
    let mut i: usize = 0;
    while i < n
        invariant
            0 <= i <= n,
            n == files@.len(),
            forall|j: int| 0 <= j < i ==> line_views(files@)[j] != name@,
        decreases n - i,
    {
        if bytes_eq(files[i].as_slice(), name) {
            proof {
                assert(line_views(files@)[i as int] == name@);
            }
            return true;
        }
        proof {
            assert(line_views(files@)[i as int] == files@[i as int]@);
        }
        i = i + 1;
    }
    proof {
        assert(!line_views(files@).contains(name@)) by {
            if line_views(files@).contains(name@) {
                let k = choose|k: int|
                    0 <= k < line_views(files@).len() && line_views(files@)[k] == name@;
                assert(line_views(files@)[k] != name@);
            }
        }
    }
    false
}

/// Lists the transform jobs of the whole tree, depth first: for every raw
/// export without a normalized counterpart, its path and the path the
/// normalized file shall have.
pub fn plan_transforms(t: &DirTree, path: &[u8]) -> (r: Vec<(Vec<u8>, Vec<u8>)>)
    ensures
        pair_views(r@) == transform_plan(*t, path@),
    decreases *t,
{
    let ghost fv = line_views(t.files@);
    let csv = ext_csv();
    let mut r: Vec<(Vec<u8>, Vec<u8>)> = Vec::new();
    let nf = t.files.len();
    let mut i: usize = 0;
    proof {
        assert(pair_views(r@) =~= dir_transforms_upto(path@, fv, 0)) by {
            assert(fv.take(0) =~= Seq::<Seq<u8>>::empty());
            reveal(Seq::filter);
        }
    }
    while i < nf
        invariant
            0 <= i <= nf,
            nf == t.files@.len(),
            fv == line_views(t.files@),
            csv@ == csv_ext(),
            pair_views(r@) == dir_transforms_upto(path@, fv, i as int),
        decreases nf - i,
    {
        let name = t.files[i].as_slice();
        proof {
            assert(fv[i as int] == name@);
        }
        let out = make_out_name(name);
        let wants = has_extension(name, csv.as_slice()) && !contains_name(
            &t.files,
            out.as_slice(),
        );
        proof {
            assert(wants == wants_transform(fv, name@));
        }
        if wants {
            let input = join_path(path, name);
            let output = join_path(path, out.as_slice());
            let ghost r0 = r@;
            r.push((input, output));
            proof {
                lemma_pair_views_push(r0, ((input, output)));
            }
        }
        proof {
            reveal(Seq::filter);
            assert(fv.take(i + 1).drop_last() =~= fv.take(i as int));
            assert(fv.take(i + 1).last() == fv[i as int]);
            let pred = |n: Seq<u8>| wants_transform(fv, n);
            let f = |n: Seq<u8>| (path_join(path@, n), path_join(path@, out_name(n)));
            if wants_transform(fv, fv[i as int]) {
                assert(fv.take(i + 1).filter(pred) == fv.take(i as int).filter(pred).push(
                    fv[i as int],
                ));
                assert(dir_transforms_upto(path@, fv, i + 1) =~= dir_transforms_upto(
                    path@,
                    fv,
                    i as int,
                ).push(f(fv[i as int])));
            } else {
                assert(fv.take(i + 1).filter(pred) == fv.take(i as int).filter(pred));
            }
            assert(pair_views(r@) =~= dir_transforms_upto(path@, fv, i + 1));
        }
        i = i + 1;
    }
    proof {
        assert(fv.take(nf as int) =~= fv);
        assert(pair_views(r@) == dir_transforms(path@, fv));
    }
    let ns = t.subdirs.len();
    let mut j: usize = 0;
    proof {
        assert(subtree_transforms(t.subdirs@.take(0), path@) =~= Seq::<(Seq<u8>, Seq<u8>)>::empty())
            by {
            assert(t.subdirs@.take(0) =~= Seq::<DirTree>::empty());
        }
        assert(pair_views(r@) =~= dir_transforms(path@, fv) + subtree_transforms(
            t.subdirs@.take(0),
            path@,
        ));
    }
    while j < ns
        invariant
            0 <= j <= ns,
            ns == t.subdirs@.len(),
            fv == line_views(t.files@),
            pair_views(r@) == dir_transforms(path@, fv) + subtree_transforms(
                t.subdirs@.take(j as int),
                path@,
            ),
        decreases ns - j,
    {
        let sub = &t.subdirs[j];
        let subpath = join_path(path, sub.name.as_slice());
        let mut sp = plan_transforms(sub, subpath.as_slice());
        let ghost r0 = r@;
        let ghost sp0 = sp@;
        r.append(&mut sp);
        proof {
            lemma_pair_views_concat(r0, sp0);
            assert(t.subdirs@.take(j + 1).drop_last() =~= t.subdirs@.take(j as int));
            assert(t.subdirs@.take(j + 1).last() == t.subdirs@[j as int]);
            assert(pair_views(r@) =~= dir_transforms(path@, fv) + subtree_transforms(
                t.subdirs@.take(j + 1),
                path@,
            ));
        }
        j = j + 1;
    }
    proof {
        assert(t.subdirs@.take(ns as int) =~= t.subdirs@);
    }
    r
}

/// Lists the aggregation work, depth first: every leaf directory's path
/// with the paths of its normalized files.
pub fn plan_leaves(t: &DirTree, path: &[u8]) -> (r: Vec<(Vec<u8>, Vec<Vec<u8>>)>)
    ensures
        leaf_work_views(r@) == leaf_plan(*t, path@),
    decreases *t,
{
    let ghost fv = line_views(t.files@);
    if t.subdirs.len() == 0 {
        let outext = ext_out();
        let mut outs: Vec<Vec<u8>> = Vec::new();
        let nf = t.files.len();
        let mut i: usize = 0;
        proof {
            assert(line_views(outs@) =~= out_files_upto(path@, fv, 0)) by {
                assert(fv.take(0) =~= Seq::<Seq<u8>>::empty());
                reveal(Seq::filter);
            }
        }
        while i < nf
            invariant
                0 <= i <= nf,
                nf == t.files@.len(),
                fv == line_views(t.files@),
                outext@ == out_ext(),
                line_views(outs@) == out_files_upto(path@, fv, i as int),
            decreases nf - i,
        {
            let name = t.files[i].as_slice();
            proof {
                assert(fv[i as int] == name@);
            }
            if has_extension(name, outext.as_slice()) {
                let full = join_path(path, name);
                let ghost o0 = outs@;
                outs.push(full);
                proof {
                    crate::bytes::lemma_line_views_push(o0, full);
                }
            }
            proof {
                reveal(Seq::filter);
                assert(fv.take(i + 1).drop_last() =~= fv.take(i as int));
                assert(fv.take(i + 1).last() == fv[i as int]);
                let pred = |n: Seq<u8>| has_ext(n, out_ext());
                if has_ext(fv[i as int], out_ext()) {
                    assert(fv.take(i + 1).filter(pred) == fv.take(i as int).filter(pred).push(
                        fv[i as int],
                    ));
                } else {
                    assert(fv.take(i + 1).filter(pred) == fv.take(i as int).filter(pred));
                }
                assert(line_views(outs@) =~= out_files_upto(path@, fv, i + 1));
            }
            i = i + 1;
        }
        proof {
            assert(fv.take(nf as int) =~= fv);
        }
        let own_path = vstd::slice::slice_to_vec(path);
        let mut r: Vec<(Vec<u8>, Vec<Vec<u8>>)> = Vec::new();
        r.push((own_path, outs));
        proof {
            assert(leaf_work_views(r@) =~= leaf_plan(*t, path@));
        }
        r
    } else {
        let mut r: Vec<(Vec<u8>, Vec<Vec<u8>>)> = Vec::new();
        let ns = t.subdirs.len();
        let mut j: usize = 0;
        proof {
            assert(leaf_work_views(r@) =~= subtree_leaves(t.subdirs@.take(0), path@)) by {
                assert(t.subdirs@.take(0) =~= Seq::<DirTree>::empty());
            }
        }
        while j < ns
            invariant
                0 <= j <= ns,
                ns == t.subdirs@.len(),
                ns > 0,
                leaf_work_views(r@) == subtree_leaves(t.subdirs@.take(j as int), path@),
            decreases ns - j,
        {
            let sub = &t.subdirs[j];
            let subpath = join_path(path, sub.name.as_slice());
            let mut sp = plan_leaves(sub, subpath.as_slice());
            let ghost r0 = r@;
            let ghost sp0 = sp@;
            r.append(&mut sp);
            proof {
                lemma_leaf_work_views_concat(r0, sp0);
                assert(t.subdirs@.take(j + 1).drop_last() =~= t.subdirs@.take(j as int));
                assert(t.subdirs@.take(j + 1).last() == t.subdirs@[j as int]);
                assert(leaf_work_views(r@) =~= subtree_leaves(t.subdirs@.take(j + 1), path@));
            }
            j = j + 1;
        }
        proof {
            assert(t.subdirs@.take(ns as int) =~= t.subdirs@);
        }
        r
    }
}

} // verus!
