//! Input selection: which of the paths found are read, in what order, and
//! when the selection fails.

use vstd::prelude::*;

verus! {

broadcast use vstd::seq_lib::group_to_multiset_ensures;

/// The extension of a path, as `std::path::Path::extension` gives it.
pub uninterp spec fn extension_of(p: Seq<char>) -> Option<Seq<char>>;

/// Relies on `std::path::Path::extension`: the part of the file name after
/// its last `.`, if any. A path given as UTF-8 has a UTF-8 extension, so
/// `to_str` keeps it whole.
#[verifier::external_body]
fn path_extension(p: &str) -> (r: Option<String>)
    ensures
        match r {
            Some(e) => extension_of(p@) == Some(e@),
            None => extension_of(p@) is None,
        },
{
    std::path::Path::new(p).extension().and_then(|e| e.to_str()).map(|e| e.to_string())
}

pub open spec fn is_ascii_upper(c: char) -> bool {
    'A' <= c <= 'Z'
}

/// Two characters that are equal once ASCII letters are folded to lower case.
pub open spec fn same_ignoring_ascii_case(a: char, b: char) -> bool {
    ||| a == b
    ||| is_ascii_upper(a) && a as u32 + 32 == b as u32
    ||| is_ascii_upper(b) && b as u32 + 32 == a as u32
}

pub open spec fn eq_ignoring_ascii_case(a: Seq<char>, b: Seq<char>) -> bool {
    &&& a.len() == b.len()
    &&& forall|i: int| 0 <= i < a.len() ==> #[trigger] same_ignoring_ascii_case(a[i], b[i])
}

/// The path's extension equals `ext`, ignoring ASCII case.
pub open spec fn matches_ext(path: Seq<char>, ext: Seq<char>) -> bool {
    extension_of(path) matches Some(e) && eq_ignoring_ascii_case(e, ext)
}

fn chars_of(s: &str) -> (r: Vec<char>)
    ensures
        r@ == s@,
{
    let mut out: Vec<char> = Vec::new();
    for c in it: s.chars()
        invariant
            out@ == it.seq().subrange(0, it.index() as int),
            it.seq() == s@,
    {
        proof {
            assert(it.seq().subrange(0, it.index() + 1) =~= out@.push(c));
        }
        out.push(c);
    }
    out
}

fn char_eq_ignore_ascii_case(a: char, b: char) -> (r: bool)
    ensures
        r == same_ignoring_ascii_case(a, b),
{
    let x = a as u32;
    let y = b as u32;
    x == y || ('A' <= a && a <= 'Z' && x + 32 == y) || ('A' <= b && b <= 'Z' && y + 32 == x)
}

fn str_eq_ignore_ascii_case(a: &str, b: &str) -> (r: bool)
    ensures
        r == eq_ignoring_ascii_case(a@, b@),
{
    let x = chars_of(a);
    let y = chars_of(b);
    if x.len() != y.len() {
        return false;
    }
    let mut i: usize = 0;
    while i < x.len()
        invariant
            x@ == a@,
            y@ == b@,
            x@.len() == y@.len(),
            i <= x@.len(),
            forall|k: int| 0 <= k < i ==> #[trigger] same_ignoring_ascii_case(x@[k], y@[k]),
        decreases x.len() - i,
    {
        if !char_eq_ignore_ascii_case(x[i], y[i]) {
            return false;
        }
        i = i + 1;
    }
    true
}

/// Whether the path's extension is `ext`, ignoring ASCII case.
pub fn has_matching_ext(path: &str, ext: &str) -> (r: bool)
    ensures
        r == matches_ext(path@, ext@),
{
    match path_extension(path) {
        Some(e) => str_eq_ignore_ascii_case(e.as_str(), ext),
        None => false,
    }
}

/// A path found under an input, with what the file system says of it.
pub struct Candidate {
    pub path: String,
    /// Whether the path is a regular file.
    pub is_file: bool,
    /// The canonical form of the path, or the path itself when it has none.
    pub canonical: String,
}

/// One input as the file system shows it.
pub enum InputEntry {
    /// A directory, with the paths found in it.
    Directory(Vec<Candidate>),
    /// A file.
    File(Candidate),
    /// Neither a file nor a directory.
    Invalid(String),
}

/// Why no input files were selected.
#[derive(Debug, PartialEq, Eq)]
pub enum ScanError {
    /// This input is neither a file nor a directory.
    InvalidPath(String),
    /// No file with the extension was found.
    NoInputFiles,
}

/// A candidate is read when it is a file with the extension and is not the
/// output file itself.
pub open spec fn selected(c: Candidate, ext: Seq<char>, output: Seq<char>) -> bool {
    c.is_file && matches_ext(c.path@, ext) && c.canonical@ != output
}

/// The paths selected among `cands`, in order.
pub open spec fn picks(cands: Seq<Candidate>, ext: Seq<char>, output: Seq<char>) -> Seq<Seq<char>>
    decreases cands.len(),
{
    if cands.len() == 0 {
        Seq::empty()
    } else {
        let p = picks(cands.drop_last(), ext, output);
        if selected(cands.last(), ext, output) {
            p.push(cands.last().path@)
        } else {
            p
        }
    }
}

pub open spec fn entry_candidates(e: InputEntry) -> Seq<Candidate> {
    match e {
        InputEntry::Directory(cs) => cs@,
        InputEntry::File(c) => seq![c],
        InputEntry::Invalid(_) => Seq::empty(),
    }
}

/// Input `i` is the first that is neither a file nor a directory.
pub open spec fn first_invalid(entries: Seq<InputEntry>, i: int) -> bool {
    &&& 0 <= i < entries.len()
    &&& entries[i] is Invalid
    &&& forall|k: int| 0 <= k < i ==> !(#[trigger] entries[k] is Invalid)
}

pub open spec fn invalid_path(e: InputEntry) -> Seq<char> {
    match e {
        InputEntry::Invalid(p) => p@,
        _ => Seq::empty(),
    }
}

/// The paths selected over all inputs, in the order found.
pub open spec fn all_picks(entries: Seq<InputEntry>, ext: Seq<char>, output: Seq<char>) -> Seq<Seq<char>>
    decreases entries.len(),
{
    if entries.len() == 0 {
        Seq::empty()
    } else {
        all_picks(entries.drop_last(), ext, output) + picks(entry_candidates(entries.last()), ext, output)
    }
}

/// Character-wise lexicographic order, which for UTF-8 text is the byte-wise
/// order of its encoding.
pub open spec fn text_lt(a: Seq<char>, b: Seq<char>) -> bool
    decreases a.len(),
{
    if b.len() == 0 {
        false
    } else if a.len() == 0 {
        true
    } else if a[0] != b[0] {
        a[0] < b[0]
    } else {
        text_lt(a.drop_first(), b.drop_first())
    }
}

pub open spec fn text_views(v: Seq<String>) -> Seq<Seq<char>> {
    v.map_values(|s: String| s@)
}

/// Relies on `slice::sort` on strings: it reorders them into ascending
/// order, the byte-wise order of `Ord` on `String`, keeping each.
#[verifier::external_body]
fn sort_paths(v: &mut Vec<String>)
    ensures
        text_views(final(v)@).to_multiset() == text_views(old(v)@).to_multiset(),
        forall|i: int, j: int| 0 <= i < j < final(v)@.len() ==> !text_lt(#[trigger] final(v)@[j]@, #[trigger] final(v)@[i]@),
{
    v.sort();
}

/// Selects the input files: each file with the extension that is not the
/// output, over all inputs in order, then sorted. The first input that is
/// neither a file nor a directory is an error, and so is finding no file.
pub fn collect_input_files(inputs: Vec<InputEntry>, ext: &str, output_canonical: &String) -> (r: Result<Vec<String>, ScanError>)
    ensures
        (exists|i: int| 0 <= i < inputs@.len() && #[trigger] inputs@[i] is Invalid) ==> (r matches Err(ScanError::InvalidPath(p))
            && exists|i: int| #[trigger] first_invalid(inputs@, i) && invalid_path(inputs@[i]) == p@),
        (forall|i: int| 0 <= i < inputs@.len() ==> !(#[trigger] inputs@[i] is Invalid)) ==> {
            let found = all_picks(inputs@, ext@, output_canonical@);
            &&& found.len() == 0 ==> r == Err::<Vec<String>, ScanError>(ScanError::NoInputFiles)
            &&& found.len() > 0 ==> (r matches Ok(files) && text_views(files@).to_multiset() == found.to_multiset()
                && forall|a: int, b: int| 0 <= a < b < files@.len() ==> !text_lt(#[trigger] files@[b]@, #[trigger] files@[a]@))
        },
{
    let mut files: Vec<String> = Vec::new();
    let mut work = inputs;
    let n = work.len();
    let ghost all = work@;
    let mut i: usize = 0;
    while i < n
        invariant
            n == all.len(),
            all == inputs@,
            work@.len() == n,
            i <= n,
            forall|k: int| i <= k < n ==> #[trigger] work@[k] == all[k],
            forall|k: int| 0 <= k < i ==> !(#[trigger] all[k] is Invalid),
            text_views(files@) == all_picks(all.subrange(0, i as int), ext@, output_canonical@),
        decreases n - i,
    {
        let mut entry = InputEntry::Directory(Vec::new());
        std::mem::swap(&mut entry, &mut work[i]);
        let ghost before = text_views(files@);
        let cands: Vec<Candidate> = match entry {
            InputEntry::Directory(cs) => cs,
            InputEntry::File(c) => {
                let mut one = Vec::new();
                one.push(c);
                one
            },
            InputEntry::Invalid(p) => {
                assert(first_invalid(all, i as int));
                return Err(ScanError::InvalidPath(p));
            },
        };
        assert(cands@ == entry_candidates(all[i as int]));
        let m = cands.len();
        let mut j: usize = 0;
        while j < m
            invariant
                m == cands@.len(),
                j <= m,
                text_views(files@) == before + picks(cands@.subrange(0, j as int), ext@, output_canonical@),
            decreases m - j,
        {
            let c = &cands[j];
            let keep = c.is_file && has_matching_ext(c.path.as_str(), ext) && !(c.canonical == *output_canonical);
            proof {
                assert(cands@.subrange(0, j + 1).drop_last() =~= cands@.subrange(0, j as int));
                assert(cands@.subrange(0, j + 1).last() == cands@[j as int]);
                assert(keep == selected(cands@[j as int], ext@, output_canonical@));
            }
            if keep {
                let ghost prev = text_views(files@);
                files.push(c.path.clone());
                proof {
                    assert(text_views(files@) =~= prev.push(cands@[j as int].path@));
                    assert(text_views(files@) =~= before + picks(cands@.subrange(0, j + 1), ext@, output_canonical@));
                }
            }
            j = j + 1;
        }
        proof {
            assert(cands@.subrange(0, m as int) =~= cands@);
            assert(all.subrange(0, i + 1).drop_last() =~= all.subrange(0, i as int));
        }
        i = i + 1;
    }
    proof {
        assert(all.subrange(0, n as int) =~= all);
    }
    if files.len() == 0 {
        return Err(ScanError::NoInputFiles);
    }
    sort_paths(&mut files);
    Ok(files)
}

} // verus!
