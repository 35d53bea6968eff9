//! File paths as plain byte strings, with the two operations the build
//! graph needs: rewriting a file's extension and joining under a root.

use vstd::prelude::*;

verus! {

use vstd::string::StringSliceAdditionalSpecFns;

/// Path separator byte (`/`).
pub const SEP: u8 = 47;

/// Extension separator byte (`.`).
pub const DOT: u8 = 46;

/// Index of the last occurrence of `c` in `s`, or -1 if absent.
pub open spec fn last_index_of(s: Seq<u8>, c: u8) -> int
    decreases s.len(),
{
    if s.len() == 0 {
        -1
    } else if s[s.len() - 1] == c {
        s.len() - 1
    } else {
        last_index_of(s.drop_last(), c)
    }
}

/// Where the extension of `s` begins (the index of its dot), or `s.len()`
/// if the final path component has no extension. A dot that starts the
/// final component (a hidden file) does not begin an extension.
pub open spec fn ext_cut(s: Seq<u8>) -> int {
    let sl = last_index_of(s, SEP);
    let d = last_index_of(s, DOT);
    if d > sl + 1 {
        d
    } else {
        s.len() as int
    }
}

/// `s` with its extension replaced by `e` (or `.e` appended if none).
pub open spec fn with_ext_spec(s: Seq<u8>, e: Seq<u8>) -> Seq<u8> {
    s.take(ext_cut(s)) + seq![DOT] + e
}

/// `a/b`: `b` qualified under the directory `a`.
pub open spec fn join_spec(a: Seq<u8>, b: Seq<u8>) -> Seq<u8> {
    a + seq![SEP] + b
}

/// The byte string of the object-file extension that compiled sources get.
pub open spec fn obj_ext() -> Seq<u8> {
    seq![98u8, 101u8, 97u8, 109u8]
}

/// A file path, stored as its byte string.
#[derive(Debug)]
pub struct FilePath {
    bytes: Vec<u8>,
}

impl View for FilePath {
    type V = Seq<u8>;

    closed spec fn view(&self) -> Seq<u8> {
        self.bytes@
    }
}

impl Clone for FilePath {
    fn clone(&self) -> (r: Self)
        ensures
            r@ == self@,
    {
        FilePath { bytes: copy_bytes(&self.bytes) }
    }
}

/// The views of a sequence of paths.
pub open spec fn paths_view(s: Seq<FilePath>) -> Seq<Seq<u8>> {
    s.map(|i: int, p: FilePath| p@)
}

fn copy_bytes(v: &Vec<u8>) -> (r: Vec<u8>)
    ensures
        r@ == v@,
{
    let mut out: Vec<u8> = Vec::new();
    let mut i: usize = 0;
    while i < v.len()
        invariant
            i <= v.len(),
            out@ == v@.take(i as int),
        decreases v.len() - i,
    {
        out.push(v[i]);
        i = i + 1;
        proof {
            assert(out@ =~= v@.take(i as int));
        }
    }
    proof {
        assert(v@.take(v@.len() as int) =~= v@);
    }
    out
}

/// Index of the last occurrence of `c` in `v`, scanning from the end.
fn find_last(v: &Vec<u8>, c: u8) -> (r: Option<usize>)
    ensures
        match r {
            Some(i) => i < v@.len() && last_index_of(v@, c) == i as int,
            None => last_index_of(v@, c) == -1,
        },
{
    let mut i: usize = v.len();
    proof {
        assert(v@.take(v@.len() as int) =~= v@);
    }
    while i > 0
        invariant
            i <= v@.len(),
            last_index_of(v@.take(i as int), c) == last_index_of(v@, c),
        decreases i,
    {
        i = i - 1;
        if v[i] == c {
            proof {
                assert(v@.take(i + 1).len() == i + 1);
                assert(v@.take(i + 1)[i as int] == c);
            }
            return Some(i);
        }
        proof {
            assert(v@.take(i + 1).drop_last() =~= v@.take(i as int));
        }
    }
    None
}

impl FilePath {
    /// Wraps a string as a path; the path's bytes are the string's bytes.
    pub fn new(s: &str) -> (r: FilePath)
        ensures
            r@ == s.spec_bytes(),
    {
        FilePath { bytes: vstd::slice::slice_to_vec(s.as_bytes()) }
    }

    /// The path's byte string.
    pub fn bytes(&self) -> (r: &Vec<u8>)
        ensures
            r@ == self@,
    {
        &self.bytes
    }

    /// Path equality: the same byte string.
    pub fn same_as(&self, other: &FilePath) -> (r: bool)
        ensures
            r == (self@ == other@),
    {
        if self.bytes.len() != other.bytes.len() {
            proof {
                assert(self@ != other@);
            }
            return false;
        }
        let mut i: usize = 0;
        while i < self.bytes.len()
            invariant
                i <= self@.len(),
                self@.len() == other@.len(),
                forall|j: int| 0 <= j < i ==> self@[j] == other@[j],
            decreases self@.len() - i,
        {
            if self.bytes[i] != other.bytes[i] {
                return false;
            }
            i = i + 1;
        }
        proof {
            assert(self@ =~= other@);
        }
        true
    }

    /// This path with its extension replaced by `ext`.
    pub fn with_extension(&self, ext: &FilePath) -> (r: FilePath)
        ensures
            r@ == with_ext_spec(self@, ext@),
    {
        let n = self.bytes.len();
        let sl = find_last(&self.bytes, SEP);
        let d = find_last(&self.bytes, DOT);
        let cut: usize = match d {
            Some(di) => {
                match sl {
                    Some(si) => {
                        if di > si + 1 {
                            di
                        } else {
                            n
                        }
                    },
                    None => {
                        if di > 0 {
                            di
                        } else {
                            n
                        }
                    },
                }
            },
            None => n,
        };
        proof {
            assert(cut as int == ext_cut(self@));
        }
        let mut out: Vec<u8> = Vec::new();
        let mut i: usize = 0;
        while i < cut
            invariant
                i <= cut,
                cut <= self@.len(),
                out@ == self@.take(i as int),
            decreases cut - i,
        {
            out.push(self.bytes[i]);
            i = i + 1;
            proof {
                assert(out@ =~= self@.take(i as int));
            }
        }
        out.push(DOT);
        let mut k: usize = 0;
        while k < ext.bytes.len()
            invariant
                k <= ext@.len(),
                out@ == self@.take(ext_cut(self@)) + seq![DOT] + ext@.take(k as int),
            decreases ext@.len() - k,
        {
            out.push(ext.bytes[k]);
            k = k + 1;
            proof {
                assert(out@ =~= self@.take(ext_cut(self@)) + seq![DOT] + ext@.take(k as int));
            }
        }
        proof {
            assert(ext@.take(ext@.len() as int) =~= ext@);
        }
        FilePath { bytes: out }
    }

    /// `self/other`: `other` qualified under the directory `self`.
    pub fn join(&self, other: &FilePath) -> (r: FilePath)
        ensures
            r@ == join_spec(self@, other@),
    {
        let mut out = copy_bytes(&self.bytes);
        out.push(SEP);
        let mut k: usize = 0;
        while k < other.bytes.len()
            invariant
                k <= other@.len(),
                out@ == self@ + seq![SEP] + other@.take(k as int),
            decreases other@.len() - k,
        {
            out.push(other.bytes[k]);
            k = k + 1;
            proof {
                assert(out@ =~= self@ + seq![SEP] + other@.take(k as int));
            }
        }
        proof {
            assert(other@.take(other@.len() as int) =~= other@);
        }
        FilePath { bytes: out }
    }

    /// The object-file extension compiled sources are rewritten to.
    pub fn obj_extension() -> (r: FilePath)
        ensures
            r@ == obj_ext(),
    {
        let mut b: Vec<u8> = Vec::new();
        b.push(98);
        b.push(101);
        b.push(97);
        b.push(109);
        proof {
            assert(b@ =~= obj_ext());
        }
        FilePath { bytes: b }
    }
}

/// Whether `v` holds a path whose bytes are `p`.
pub open spec fn has_path(s: Seq<FilePath>, p: Seq<u8>) -> bool {
    exists|i: int| 0 <= i < s.len() && s[i]@ == p
}

/// Membership of a path in a list, by byte-string equality.
pub fn contains_path(v: &Vec<FilePath>, p: &FilePath) -> (r: bool)
    ensures
        r == has_path(v@, p@),
{
    let mut i: usize = 0;
    while i < v.len()
        invariant
            i <= v@.len(),
            forall|j: int| 0 <= j < i ==> v@[j]@ != p@,
        decreases v@.len() - i,
    {
        if v[i].same_as(p) {
            return true;
        }
        i = i + 1;
    }
    false
}

} // verus!
