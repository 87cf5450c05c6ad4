//! Resolution of a patch archive and its sidecar resources.
//!
//! A Helldivers II patch is a small group of files: the main `.patch_N` file
//! is required, while `.stream` and `.gpu_resources` files are optional unless
//! the main file's TOC contains a resource that references them. This module
//! holds the naming rules and the checks on the main file's bytes; looking at
//! the file system is left to the caller, which hands over what it found.

use vstd::prelude::*;
use vstd::string::*;
use crate::le::{le_u32_at, le_u64_at, opt_u32_at, u32_at, u32_in, u64_in};
use crate::text::{concat2, concat3, concat5};

verus! {

/// One patch archive plus the sidecars that belong to that exact filename.
#[derive(Debug)]
pub struct PatchFileGroup {
    /// The required main `.patch_N` file.
    pub main: String,
    /// The optional `<main>.stream` sidecar, when it exists.
    pub stream: Option<String>,
    /// The optional `<main>.gpu_resources` sidecar, when it exists.
    pub gpu_resources: Option<String>,
}

/// An error found while resolving a patch group, with its message.
#[derive(Debug)]
pub struct PatchFileGroupError {
    message: String,
}

impl PatchFileGroupError {
    pub closed spec fn text(&self) -> Seq<char> {
        self.message@
    }

    pub fn new(message: String) -> (e: Self)
        ensures
            e.text() == message@,
    {
        PatchFileGroupError { message }
    }

    /// The error's message.
    pub fn message(&self) -> (m: String)
        ensures
            m@ == self.text(),
    {
        self.message.clone()
    }
}

// ---------------------------------------------------------------------------
// File names.

/// Index of the last `.` in `s`.
pub open spec fn last_dot(s: Seq<char>) -> Option<int>
    decreases s.len(),
{
    if s.len() == 0 {
        None
    } else if s.last() == '.' {
        Some(s.len() - 1)
    } else {
        last_dot(s.drop_last())
    }
}

/// The extension of a file name: what follows its last `.`, unless that dot
/// starts the name (a hidden file) or the name is `..`.
pub open spec fn extension(name: Seq<char>) -> Option<Seq<char>> {
    if name == seq!['.', '.'] {
        None
    } else {
        match last_dot(name) {
            Some(i) => if i > 0 {
                Some(name.subrange(i + 1, name.len() as int))
            } else {
                None
            },
            None => None,
        }
    }
}

/// The name with its extension (and the dot before it) removed.
pub open spec fn without_extension(name: Seq<char>) -> Seq<char> {
    match extension(name) {
        Some(_) => name.subrange(0, last_dot(name).unwrap()),
        None => name,
    }
}

pub open spec fn is_ascii_digit(c: char) -> bool {
    '0' <= c <= '9'
}

/// A main patch name: extension `patch`, or `patch_` followed by one or more
/// ASCII digits.
pub open spec fn spec_is_main_patch_name(name: Seq<char>) -> bool {
    match extension(name) {
        Some(e) => e == seq!['p', 'a', 't', 'c', 'h'] || (e.len() > 6 && e.take(6) == seq![
            'p',
            'a',
            't',
            'c',
            'h',
            '_',
        ] && forall|k: int| 6 <= k < e.len() ==> is_ascii_digit(#[trigger] e[k])),
        None => false,
    }
}

/// Whether the name's extension is `ext`.
pub open spec fn has_extension(name: Seq<char>, ext: Seq<char>) -> bool {
    extension(name) == Some(ext)
}

fn last_dot_exec(s: &str) -> (r: Option<usize>)
    ensures
        r matches Some(i) ==> last_dot(s@) == Some(i as int) && i < s@.len(),
        r is None ==> last_dot(s@) is None,
{
    let n = s.unicode_len();
    let mut i = n;
    assert(s@.take(n as int) =~= s@);
    while i > 0
        invariant
            i <= n,
            n == s@.len(),
            last_dot(s@) == last_dot(s@.take(i as int)),
        decreases i,
    {
        assert(s@.take(i as int).drop_last() =~= s@.take(i - 1));
        if s.get_char(i - 1) == '.' {
            return Some(i - 1);
        }
        i = i - 1;
    }
    None
}

/// Whether `s[start..]` begins with `pat`.
fn chars_at(s: &str, start: usize, pat: &[char]) -> (b: bool)
    ensures
        b == (start + pat@.len() <= s@.len() && s@.subrange(start as int, start + pat@.len()) == pat@),
{
    let n = s.unicode_len();
    if start > n || pat.len() > n - start {
        return false;
    }
    let mut k: usize = 0;
    while k < pat.len()
        invariant
            start + pat@.len() <= n,
            n == s@.len(),
            0 <= k <= pat@.len(),
            forall|j: int| 0 <= j < k ==> s@[start + j] == pat@[j],
        decreases pat@.len() - k,
    {
        if s.get_char(start + k) != pat[k] {
            assert(s@.subrange(start as int, start + pat@.len())[k as int] != pat@[k as int]);
            return false;
        }
        k = k + 1;
    }
    assert(s@.subrange(start as int, start + pat@.len()) =~= pat@);
    true
}

/// The position where the extension of `name` starts (just after its dot),
/// if it has one.
pub(crate) fn extension_start(name: &str) -> (r: Option<usize>)
    ensures
        r matches Some(i) ==> 2 <= i <= name@.len() && extension(name@) == Some(
            name@.subrange(i as int, name@.len() as int),
        ) && last_dot(name@) == Some(i - 1),
        r is None ==> extension(name@) is None,
{
    let n = name.unicode_len();
    if n == 2 && name.get_char(0) == '.' && name.get_char(1) == '.' {
        assert(name@ =~= seq!['.', '.']);
        return None;
    }
    assert(name@ != seq!['.', '.']);
    match last_dot_exec(name) {
        Some(i) => {
            if i > 0 {
                Some(i + 1)
            } else {
                None
            }
        },
        None => None,
    }
}

/// Whether the extension of `name` is exactly `ext`.
pub(crate) fn extension_is(name: &str, ext: &[char]) -> (b: bool)
    ensures
        b == has_extension(name@, ext@),
{
    match extension_start(name) {
        Some(i) => {
            let n = name.unicode_len();
            if n - i != ext.len() {
                return false;
            }
            chars_at(name, i, ext)
        },
        None => false,
    }
}

/// True when `name` is the file name of a main patch file rather than a
/// `.stream` or `.gpu_resources` sidecar.
pub fn is_main_patch_file(name: &str) -> (b: bool)
    ensures
        b == spec_is_main_patch_name(name@),
{
    let i = match extension_start(name) {
        Some(i) => i,
        None => return false,
    };
    let n = name.unicode_len();
    let ghost e = name@.subrange(i as int, n as int);
    let plain = ['p', 'a', 't', 'c', 'h'];
    assert(plain@ =~= seq!['p', 'a', 't', 'c', 'h']);
    if n - i == 5 && chars_at(name, i, &plain) {
        assert(e =~= plain@);
        return true;
    }
    assert(e != seq!['p', 'a', 't', 'c', 'h']) by {
        if n - i == 5 {
            assert(name@.subrange(i as int, i + 5) =~= e);
        }
    }
    let prefix = ['p', 'a', 't', 'c', 'h', '_'];
    assert(prefix@ =~= seq!['p', 'a', 't', 'c', 'h', '_']);
    if n - i <= 6 || !chars_at(name, i, &prefix) {
        assert(!(e.len() > 6 && e.take(6) == prefix@)) by {
            if e.len() > 6 {
                assert(e.take(6) =~= name@.subrange(i as int, i + 6));
            }
        }
        return false;
    }
    assert(e.take(6) =~= prefix@);
    let mut k = i + 6;
    while k < n
        invariant
            i + 6 <= k <= n,
            n == name@.len(),
            e == name@.subrange(i as int, n as int),
            extension(name@) == Some(e),
            e.len() > 6,
            e.take(6) == seq!['p', 'a', 't', 'c', 'h', '_'],
            forall|j: int| 6 <= j < k - i ==> is_ascii_digit(#[trigger] e[j]),
        decreases n - k,
    {
        let c = name.get_char(k);
        if !('0' <= c && c <= '9') {
            assert(!is_ascii_digit(e[k - i]));
            return false;
        }
        k = k + 1;
    }
    true
}

/// Whether `name` is a sidecar name with extension `suffix` (`.stream` or
/// `.gpu_resources`, given with or without its dot).
fn is_sidecar(name: &str, suffix: &[char]) -> (b: bool)
    ensures
        b == has_extension(name@, suffix@),
{
    extension_is(name, suffix)
}

/// The sidecar extensions, without their dot.
pub open spec fn stream_ext() -> Seq<char> {
    seq!['s', 't', 'r', 'e', 'a', 'm']
}

pub open spec fn gpu_ext() -> Seq<char> {
    seq!['g', 'p', 'u', '_', 'r', 'e', 's', 'o', 'u', 'r', 'c', 'e', 's']
}

/// The main patch's file name for a selected file name: a sidecar resolves
/// to the name without its sidecar extension; the result must be a main
/// patch name.
pub open spec fn spec_main_name_for(name: Seq<char>) -> Option<Seq<char>> {
    let main = if has_extension(name, stream_ext()) || has_extension(name, gpu_ext()) {
        without_extension(name)
    } else {
        name
    };
    if spec_is_main_patch_name(main) {
        Some(main)
    } else {
        None
    }
}

/// The message for a selected path that is neither a main patch nor one of
/// its sidecars.
pub open spec fn not_a_patch_message(path: Seq<char>) -> Seq<char> {
    "'"@ + path + "' is not a `.patch_N` file or a matching companion"@
}

/// Resolves the file name of the main patch for a selected `name` (a main
/// patch, or one of its sidecars). `path` is how the selected file is shown
/// in the error message.
pub fn main_name_for(name: &str, path: &str) -> (r: Result<String, PatchFileGroupError>)
    ensures
        r matches Ok(m) ==> spec_main_name_for(name@) == Some(m@),
        r matches Err(e) ==> spec_main_name_for(name@) is None && e.text() == not_a_patch_message(path@),
{
    let stream = ['s', 't', 'r', 'e', 'a', 'm'];
    let gpu = ['g', 'p', 'u', '_', 'r', 'e', 's', 'o', 'u', 'r', 'c', 'e', 's'];
    assert(stream@ =~= stream_ext());
    assert(gpu@ =~= gpu_ext());
    let main: String = if is_sidecar(name, &stream) || is_sidecar(name, &gpu) {
        match extension_start(name) {
            Some(i) => String::from_str(name.substring_char(0, i - 1)),
            None => String::from_str(name),
        }
    } else {
        String::from_str(name)
    };
    if is_main_patch_file(main.as_str()) {
        Ok(main)
    } else {
        Err(PatchFileGroupError::new(
            concat3("'", path, "' is not a `.patch_N` file or a matching companion"),
        ))
    }
}

/// The exact path of a sidecar for `main`, whether or not it exists.
pub fn companion_path(main: &str, suffix: &str) -> (p: String)
    ensures
        p@ == main@ + suffix@,
{
    concat2(main, suffix)
}

impl PatchFileGroup {
    /// Every file of this group that is present: the main file, then the
    /// stream and GPU sidecars when they exist.
    pub fn existing_paths(&self) -> (paths: Vec<String>)
        ensures
            paths@.map_values(|p: String| p@) == seq![self.main@]
                + (match self.stream { Some(s) => seq![s@], None => Seq::empty() })
                + (match self.gpu_resources { Some(g) => seq![g@], None => Seq::empty() }),
    {
        let mut paths: Vec<String> = Vec::new();
        paths.push(self.main.clone());
        if let Some(s) = &self.stream {
            paths.push(s.clone());
        }
        if let Some(g) = &self.gpu_resources {
            paths.push(g.clone());
        }
        assert(paths@.map_values(|p: String| p@) =~= seq![self.main@]
            + (match self.stream { Some(s) => seq![s@], None => Seq::empty() })
            + (match self.gpu_resources { Some(g) => seq![g@], None => Seq::empty() }));
        paths
    }
}

} // verus!

verus! {

// ---------------------------------------------------------------------------
// The main file's tables.

/// `"patch '<main>"` followed by `tail` (which closes the quote): the form
/// of most messages here.
pub open spec fn patch_msg(main: Seq<char>, tail: Seq<char>) -> Seq<char> {
    "patch '"@ + main + tail
}

/// A `u32` header field, or 0 when the buffer is too short to hold it.
pub open spec fn u32_or_zero(data: Seq<u8>, off: int) -> int {
    match opt_u32_at(data, off) {
        Some(v) => v as int,
        None => 0,
    }
}

/// Where the type table ends and how many file entries follow it, or the
/// message for a table that does not fit the address space or the file.
pub open spec fn spec_table_layout(data: Seq<u8>, main: Seq<char>) -> Result<(int, int), Seq<char>> {
    let nt = u32_or_zero(data, 4);
    let nf = u32_or_zero(data, 8);
    if nt * 32 > usize::MAX {
        Err(patch_msg(main, "' has an oversized type table"@))
    } else if 72 + nt * 32 > usize::MAX {
        Err("patch type table offset overflow"@)
    } else if nf * 80 > usize::MAX {
        Err(patch_msg(main, "' has an oversized file table"@))
    } else if 72 + nt * 32 + nf * 80 > usize::MAX {
        Err("patch file table offset overflow"@)
    } else if 72 + nt * 32 + nf * 80 > data.len() {
        Err(patch_msg(main, "' has a truncated file table"@))
    } else {
        Ok((72 + nt * 32, nf))
    }
}

/// Offset of the `index`-th file entry, the type table ending at `type_end`.
pub open spec fn entry_offset(type_end: int, index: int) -> int {
    type_end + 80 * index
}

/// The entry's resource lies (partly) outside the main file: its offset, as
/// a `usize`, plus its size passes the end of the data.
pub open spec fn toc_outside(data: Seq<u8>, entry: int) -> bool {
    (le_u64_at(data, entry + 16) as usize) as int + le_u32_at(data, entry + 56) as int > data.len()
}

/// The entry keeps data in the stream sidecar.
pub open spec fn uses_stream(data: Seq<u8>, entry: int) -> bool {
    le_u32_at(data, entry + 60) > 0
}

/// The entry keeps data in the GPU sidecar.
pub open spec fn uses_gpu(data: Seq<u8>, entry: int) -> bool {
    le_u32_at(data, entry + 64) > 0
}

/// What `required_companions` answers for the main file's bytes: the header
/// and tables must be complete, every resource must lie inside the file, and
/// each sidecar is required when some entry keeps data in it.
pub open spec fn spec_required_companions(data: Seq<u8>, main: Seq<char>) -> Result<(bool, bool), Seq<char>> {
    if data.len() < 72 {
        Err(patch_msg(main, "' has a truncated header"@))
    } else {
        match spec_table_layout(data, main) {
            Err(m) => Err(m),
            Ok((type_end, nf)) => if exists|i: int| 0 <= i < nf && #[trigger] toc_outside(data, entry_offset(type_end, i)) {
                Err(patch_msg(main, "' has a TOC resource outside the file"@))
            } else {
                Ok((
                    exists|i: int| 0 <= i < nf && #[trigger] uses_stream(data, entry_offset(type_end, i)),
                    exists|i: int| 0 <= i < nf && #[trigger] uses_gpu(data, entry_offset(type_end, i)),
                ))
            },
        }
    }
}

/// Computes the table layout of the main file.
fn table_layout(data: &[u8], main: &str) -> (r: Result<(usize, usize), PatchFileGroupError>)
    ensures
        match spec_table_layout(data@, main@) {
            Ok((t, n)) => r matches Ok((t2, n2)) && t2 == t && n2 == n,
            Err(m) => r matches Err(e) && e.text() == m,
        },
{
    let nt: usize = match u32_at(data, 4) {
        Some(v) => v as usize,
        None => 0,
    };
    let nf: usize = match u32_at(data, 8) {
        Some(v) => v as usize,
        None => 0,
    };
    let types_size = match nt.checked_mul(32) {
        Some(v) => v,
        None => {
            return Err(PatchFileGroupError::new(concat3("patch '", main, "' has an oversized type table")));
        },
    };
    let type_end = match 72usize.checked_add(types_size) {
        Some(v) => v,
        None => {
            return Err(PatchFileGroupError::new(String::from_str("patch type table offset overflow")));
        },
    };
    let files_size = match nf.checked_mul(80) {
        Some(v) => v,
        None => {
            return Err(PatchFileGroupError::new(concat3("patch '", main, "' has an oversized file table")));
        },
    };
    let file_end = match type_end.checked_add(files_size) {
        Some(v) => v,
        None => {
            return Err(PatchFileGroupError::new(String::from_str("patch file table offset overflow")));
        },
    };
    if file_end > data.len() {
        return Err(PatchFileGroupError::new(concat3("patch '", main, "' has a truncated file table")));
    }
    Ok((type_end, nf))
}

proof fn lemma_entry_in_table(type_end: int, nf: int, index: int, len: int)
    requires
        0 <= index < nf,
        type_end + nf * 80 <= len,
    ensures
        entry_offset(type_end, index) + 80 <= len,
        entry_offset(type_end, index) >= type_end,
{
    assert(index * 80 + 80 <= nf * 80) by (nonlinear_arith)
        requires
            0 <= index < nf,
    ;
}

/// Reads only the main file's tables and says which sidecars it needs: the
/// stream sidecar when some entry keeps stream data, the GPU sidecar when
/// some entry keeps GPU data. `main` is how the main file is named in
/// messages.
pub fn required_companions(data: &[u8], main: &str) -> (r: Result<(bool, bool), PatchFileGroupError>)
    ensures
        match spec_required_companions(data@, main@) {
            Ok(needs) => r == Ok::<(bool, bool), PatchFileGroupError>(needs),
            Err(m) => r matches Err(e) && e.text() == m,
        },
{
    if data.len() < 72 {
        return Err(PatchFileGroupError::new(concat3("patch '", main, "' has a truncated header")));
    }
    let (type_end, nf) = match table_layout(data, main) {
        Ok(l) => l,
        Err(e) => return Err(e),
    };
    let mut needs_stream = false;
    let mut needs_gpu = false;
    let mut index: usize = 0;
    while index < nf
        invariant
            spec_table_layout(data@, main@) == Ok::<(int, int), Seq<char>>((type_end as int, nf as int)),
            type_end + nf * 80 <= data@.len(),
            data@.len() >= 72,
            index <= nf,
            forall|j: int| 0 <= j < index ==> !#[trigger] toc_outside(data@, entry_offset(type_end as int, j)),
            needs_stream == exists|j: int| 0 <= j < index && #[trigger] uses_stream(data@, entry_offset(type_end as int, j)),
            needs_gpu == exists|j: int| 0 <= j < index && #[trigger] uses_gpu(data@, entry_offset(type_end as int, j)),
        decreases nf - index,
    {
        proof {
            lemma_entry_in_table(type_end as int, nf as int, index as int, data@.len() as int);
        }
        let offset = type_end + index * 80;
        assert(offset == entry_offset(type_end as int, index as int));
        let toc_offset_raw = u64_in(data, offset + 16);
        let toc_offset = toc_offset_raw as usize;
        let toc_size = u32_in(data, offset + 56) as usize;
        let outside = match toc_offset.checked_add(toc_size) {
            Some(end) => end > data.len(),
            None => {
                assert(data@.len() == data.len());
                true
            },
        };
        if outside {
            assert(toc_outside(data@, entry_offset(type_end as int, index as int)));
            let ghost l = spec_table_layout(data@, main@);
            assert(l is Ok);
            assert(l->Ok_0.0 == type_end);
            assert(l->Ok_0.1 == nf);
            assert(!(data@.len() < 72));
            return Err(PatchFileGroupError::new(concat3("patch '", main, "' has a TOC resource outside the file")));
        }
        let stream_size = u32_in(data, offset + 60);
        let gpu_size = u32_in(data, offset + 64);
        if stream_size > 0 {
            assert(uses_stream(data@, entry_offset(type_end as int, index as int)));
            needs_stream = true;
        }
        if gpu_size > 0 {
            assert(uses_gpu(data@, entry_offset(type_end as int, index as int)));
            needs_gpu = true;
        }
        index = index + 1;
    }
    Ok((needs_stream, needs_gpu))
}

// ---------------------------------------------------------------------------
// Sidecar lengths.

/// `a + b`, held at `u64::MAX` when it would pass it.
pub open spec fn sat_add(a: u64, b: u64) -> int {
    if a + b > u64::MAX {
        u64::MAX as int
    } else {
        a + b
    }
}

/// The entry keeps stream data that the stream sidecar (of length `len`,
/// `None` when there is none) cannot hold.
pub open spec fn stream_out_of_range(data: Seq<u8>, entry: int, len: Option<u64>) -> bool {
    let size = le_u32_at(data, entry + 60);
    size > 0 && match len {
        None => true,
        Some(l) => sat_add(le_u64_at(data, entry + 24), size as u64) > l,
    }
}

/// The entry keeps GPU data that the GPU sidecar cannot hold.
pub open spec fn gpu_out_of_range(data: Seq<u8>, entry: int, len: Option<u64>) -> bool {
    let size = le_u32_at(data, entry + 64);
    size > 0 && match len {
        None => true,
        Some(l) => sat_add(le_u64_at(data, entry + 32), size as u64) > l,
    }
}

/// The first of the first `n` entries whose sidecar data is out of range.
pub open spec fn first_out_of_range(
    data: Seq<u8>,
    type_end: int,
    n: nat,
    stream_len: Option<u64>,
    gpu_len: Option<u64>,
) -> Option<int>
    decreases n,
{
    if n == 0 {
        None
    } else {
        match first_out_of_range(data, type_end, (n - 1) as nat, stream_len, gpu_len) {
            Some(i) => Some(i),
            None => {
                let e = entry_offset(type_end, n - 1);
                if stream_out_of_range(data, e, stream_len) || gpu_out_of_range(data, e, gpu_len) {
                    Some(n - 1)
                } else {
                    None
                }
            },
        }
    }
}

/// Once found among the first `k` entries, the first out-of-range entry
/// stays the first among more.
proof fn lemma_first_out_of_range_stable(
    data: Seq<u8>,
    type_end: int,
    k: nat,
    n: nat,
    stream_len: Option<u64>,
    gpu_len: Option<u64>,
)
    requires
        k <= n,
        first_out_of_range(data, type_end, k, stream_len, gpu_len) is Some,
    ensures
        first_out_of_range(data, type_end, n, stream_len, gpu_len)
            == first_out_of_range(data, type_end, k, stream_len, gpu_len),
    decreases n - k,
{
    if k < n {
        lemma_first_out_of_range_stable(data, type_end, k, (n - 1) as nat, stream_len, gpu_len);
    }
}

/// What `validate_companion_lengths` answers: the tables must fit, and then
/// the first entry whose stream or GPU data does not lie inside its sidecar
/// is reported (its stream data first).
pub open spec fn spec_validate_companion_lengths(
    data: Seq<u8>,
    main: Seq<char>,
    stream_len: Option<u64>,
    gpu_len: Option<u64>,
) -> Result<(), Seq<char>> {
    match spec_table_layout(data, main) {
        Err(m) => Err(m),
        Ok((type_end, nf)) => match first_out_of_range(data, type_end, nf as nat, stream_len, gpu_len) {
            None => Ok(()),
            Some(i) => if stream_out_of_range(data, entry_offset(type_end, i), stream_len) {
                Err(patch_msg(main, "' references stream data outside its companion"@))
            } else {
                Err(patch_msg(main, "' references GPU data outside its companion"@))
            },
        },
    }
}

/// Checks that every stream and GPU range of the main file's entries lies
/// inside the sidecar that holds it; `stream_len` and `gpu_len` are the
/// sidecars' lengths, `None` for a sidecar that is not there.
pub fn validate_companion_lengths(
    data: &[u8],
    main: &str,
    stream_len: Option<u64>,
    gpu_len: Option<u64>,
) -> (r: Result<(), PatchFileGroupError>)
    ensures
        match spec_validate_companion_lengths(data@, main@, stream_len, gpu_len) {
            Ok(()) => r is Ok,
            Err(m) => r matches Err(e) && e.text() == m,
        },
{
    let (type_end, nf) = match table_layout(data, main) {
        Ok(l) => l,
        Err(e) => return Err(e),
    };
    let mut index: usize = 0;
    while index < nf
        invariant
            spec_table_layout(data@, main@) == Ok::<(int, int), Seq<char>>((type_end as int, nf as int)),
            type_end + nf * 80 <= data@.len(),
            index <= nf,
            first_out_of_range(data@, type_end as int, index as nat, stream_len, gpu_len) is None,
        decreases nf - index,
    {
        proof {
            lemma_entry_in_table(type_end as int, nf as int, index as int, data@.len() as int);
        }
        let offset = type_end + index * 80;
        let ghost e = entry_offset(type_end as int, index as int);
        assert(offset == e);
        let stream_offset = u64_in(data, offset + 24);
        let stream_size = u32_in(data, offset + 60) as u64;
        let stream_bad = stream_size > 0 && match stream_len {
            None => true,
            Some(l) => stream_offset.saturating_add(stream_size) > l,
        };
        let gpu_offset = u64_in(data, offset + 32);
        let gpu_size = u32_in(data, offset + 64) as u64;
        let gpu_bad = gpu_size > 0 && match gpu_len {
            None => true,
            Some(l) => gpu_offset.saturating_add(gpu_size) > l,
        };
        assert(stream_bad == stream_out_of_range(data@, e, stream_len));
        assert(gpu_bad == gpu_out_of_range(data@, e, gpu_len));
        assert(first_out_of_range(data@, type_end as int, (index + 1) as nat, stream_len, gpu_len)
            == (if stream_bad || gpu_bad { Some(index as int) } else { None::<int> }));
        if stream_bad || gpu_bad {
            proof {
                lemma_first_out_of_range_stable(data@, type_end as int, (index + 1) as nat, nf as nat, stream_len, gpu_len);
            }
        }
        if stream_bad {
            let ghost l = spec_table_layout(data@, main@);
            assert(l->Ok_0.0 == type_end && l->Ok_0.1 == nf);
            return Err(PatchFileGroupError::new(
                concat3("patch '", main, "' references stream data outside its companion"),
            ));
        }
        if gpu_bad {
            let ghost l = spec_table_layout(data@, main@);
            assert(l->Ok_0.0 == type_end && l->Ok_0.1 == nf);
            return Err(PatchFileGroupError::new(
                concat3("patch '", main, "' references GPU data outside its companion"),
            ));
        }
        index = index + 1;
    }
    let ghost l = spec_table_layout(data@, main@);
    assert(l->Ok_0.0 == type_end && l->Ok_0.1 == nf);
    Ok(())
}

// ---------------------------------------------------------------------------
// Resolution.

/// What was found on disk at a sidecar's path.
#[derive(Debug, Clone, Copy, PartialEq, Eq, Structural)]
pub enum Companion {
    /// Nothing exists there.
    Missing,
    /// Something exists there, but it is not a regular file.
    NotAFile,
    /// A regular file of the given length.
    File(u64),
}

/// The sidecar's path when it is there, or the message when it is not a file
/// or is required but missing.
pub open spec fn spec_resolve_companion(
    main: Seq<char>,
    suffix: Seq<char>,
    required: bool,
    found: Companion,
) -> Result<Option<Seq<char>>, Seq<char>> {
    let path = main + suffix;
    match found {
        Companion::NotAFile => Err("companion '"@ + path + "' is not a file"@),
        Companion::File(_) => Ok(Some(path)),
        Companion::Missing => if required {
            Err("main patch '"@ + main + "' references missing required companion '"@ + path + "'"@)
        } else {
            Ok(None)
        },
    }
}

/// Decides a sidecar from what was found at `main + suffix`.
pub fn resolve_companion(main: &str, suffix: &str, required: bool, found: Companion) -> (r: Result<
    Option<String>,
    PatchFileGroupError,
>)
    ensures
        match spec_resolve_companion(main@, suffix@, required, found) {
            Ok(Some(p)) => r matches Ok(Some(q)) && q@ == p,
            Ok(None) => r matches Ok(None),
            Err(m) => r matches Err(e) && e.text() == m,
        },
{
    let path = companion_path(main, suffix);
    match found {
        Companion::NotAFile => Err(PatchFileGroupError::new(concat3("companion '", path.as_str(), "' is not a file"))),
        Companion::File(_) => Ok(Some(path)),
        Companion::Missing => {
            if required {
                Err(PatchFileGroupError::new(concat5(
                    "main patch '",
                    main,
                    "' references missing required companion '",
                    path.as_str(),
                    "'",
                )))
            } else {
                Ok(None)
            }
        },
    }
}

/// The length of a sidecar that is a file.
pub open spec fn companion_len(found: Companion) -> Option<u64> {
    match found {
        Companion::File(l) => Some(l),
        _ => None,
    }
}

fn companion_len_exec(found: Companion) -> (r: Option<u64>)
    ensures
        r == companion_len(found),
{
    match found {
        Companion::File(l) => Some(l),
        _ => None,
    }
}

/// The group for the main patch `main` (a file whose bytes are `data`),
/// given what was found at its two sidecar paths: the sidecars its entries
/// need must be there, anything at a sidecar path must be a file, and every
/// entry's sidecar range must lie inside that sidecar.
pub open spec fn spec_group_from_main(
    main: Seq<char>,
    data: Seq<u8>,
    stream: Companion,
    gpu: Companion,
) -> Result<(Seq<char>, Option<Seq<char>>, Option<Seq<char>>), Seq<char>> {
    match spec_required_companions(data, main) {
        Err(m) => Err(m),
        Ok((needs_stream, needs_gpu)) => match spec_resolve_companion(main, ".stream"@, needs_stream, stream) {
            Err(m) => Err(m),
            Ok(s) => match spec_resolve_companion(main, ".gpu_resources"@, needs_gpu, gpu) {
                Err(m) => Err(m),
                Ok(g) => match spec_validate_companion_lengths(data, main, companion_len(stream), companion_len(gpu)) {
                    Err(m) => Err(m),
                    Ok(()) => Ok((main, s, g)),
                },
            },
        },
    }
}

/// The view of a group: its main path and its sidecars' paths.
pub open spec fn group_view(g: PatchFileGroup) -> (Seq<char>, Option<Seq<char>>, Option<Seq<char>>) {
    (
        g.main@,
        match g.stream { Some(s) => Some(s@), None => None },
        match g.gpu_resources { Some(p) => Some(p@), None => None },
    )
}

fn group_from_main(main: &str, data: &[u8], stream: Companion, gpu: Companion) -> (r: Result<
    PatchFileGroup,
    PatchFileGroupError,
>)
    ensures
        match spec_group_from_main(main@, data@, stream, gpu) {
            Ok(v) => r matches Ok(g) && group_view(g) == v,
            Err(m) => r matches Err(e) && e.text() == m,
        },
{
    proof {
        reveal_strlit(".stream");
        reveal_strlit(".gpu_resources");
    }
    let (needs_stream, needs_gpu) = match required_companions(data, main) {
        Ok(n) => n,
        Err(e) => return Err(e),
    };
    let s = match resolve_companion(main, ".stream", needs_stream, stream) {
        Ok(s) => s,
        Err(e) => return Err(e),
    };
    let g = match resolve_companion(main, ".gpu_resources", needs_gpu, gpu) {
        Ok(g) => g,
        Err(e) => return Err(e),
    };
    match validate_companion_lengths(data, main, companion_len_exec(stream), companion_len_exec(gpu)) {
        Ok(()) => {},
        Err(e) => return Err(e),
    }
    Ok(PatchFileGroup { main: String::from_str(main), stream: s, gpu_resources: g })
}

/// The main patch's path for a selected `path` whose file name is `name`:
/// a directory is refused; a sidecar stands for its main patch; what
/// results must be a main patch.
pub open spec fn spec_main_path_for(path: Seq<char>, name: Seq<char>, is_dir: bool) -> Result<Seq<char>, Seq<char>> {
    if is_dir {
        Err("'"@ + path + "' is a directory, not a patch file"@)
    } else {
        match spec_main_name_for(name) {
            None => Err(not_a_patch_message(path)),
            Some(m) => Ok(path.take(path.len() - name.len()) + m),
        }
    }
}

/// Resolves the main patch's path for a selected `path`, whose file name
/// is `name`; `is_dir` says whether the selected path is a directory.
pub fn main_path_for(path: &str, name: &str, is_dir: bool) -> (r: Result<String, PatchFileGroupError>)
    requires
        name@.len() <= path@.len(),
        path@.skip(path@.len() - name@.len()) == name@,
    ensures
        match spec_main_path_for(path@, name@, is_dir) {
            Ok(m) => r matches Ok(p) && p@ == m,
            Err(m) => r matches Err(e) && e.text() == m,
        },
{
    if is_dir {
        return Err(PatchFileGroupError::new(concat3("'", path, "' is a directory, not a patch file")));
    }
    let main_name = match main_name_for(name, path) {
        Ok(m) => m,
        Err(e) => return Err(e),
    };
    let plen = path.unicode_len();
    let nlen = name.unicode_len();
    let dir = path.substring_char(0, plen - nlen);
    Ok(concat2(dir, main_name.as_str()))
}

/// What resolving a selected path gives, from what was found on disk: the
/// selected path (named `name`) and whether it is a directory; whether the
/// main patch it stands for is a file, and its bytes; and what was found at
/// the main patch's two sidecar paths.
pub open spec fn spec_resolve(
    path: Seq<char>,
    name: Seq<char>,
    is_dir: bool,
    main_is_file: bool,
    data: Seq<u8>,
    stream: Companion,
    gpu: Companion,
) -> Result<(Seq<char>, Option<Seq<char>>, Option<Seq<char>>), Seq<char>> {
    match spec_main_path_for(path, name, is_dir) {
        Err(m) => Err(m),
        Ok(main) => if !main_is_file {
            Err("required main patch '"@ + main + "' does not exist"@)
        } else {
            spec_group_from_main(main, data, stream, gpu)
        },
    }
}

impl PatchFileGroup {
    /// Resolves either the main patch or one of its sidecars to the same
    /// group. The caller looks at the disk: `path` is the selected path and
    /// `name` its file name, `is_dir` whether it is a directory;
    /// `main_is_file`, `data`, `stream` and `gpu` describe the main patch
    /// that `main_path_for` names and what lies at its sidecar paths.
    pub fn resolve(
        path: &str,
        name: &str,
        is_dir: bool,
        main_is_file: bool,
        data: &[u8],
        stream: Companion,
        gpu: Companion,
    ) -> (r: Result<PatchFileGroup, PatchFileGroupError>)
        requires
            name@.len() <= path@.len(),
            path@.skip(path@.len() - name@.len()) == name@,
        ensures
            match spec_resolve(path@, name@, is_dir, main_is_file, data@, stream, gpu) {
                Ok(v) => r matches Ok(g) && group_view(g) == v,
                Err(m) => r matches Err(e) && e.text() == m,
            },
    {
        let main = match main_path_for(path, name, is_dir) {
            Ok(m) => m,
            Err(e) => return Err(e),
        };
        if !main_is_file {
            return Err(PatchFileGroupError::new(
                concat3("required main patch '", main.as_str(), "' does not exist"),
            ));
        }
        group_from_main(main.as_str(), data, stream, gpu)
    }

    /// Resolves a group when the caller already knows that `main` (named
    /// `name`) is the main patch path, with the same facts as `resolve`.
    pub fn from_main(
        main: &str,
        name: &str,
        is_dir: bool,
        main_is_file: bool,
        data: &[u8],
        stream: Companion,
        gpu: Companion,
    ) -> (r: Result<PatchFileGroup, PatchFileGroupError>)
        requires
            name@.len() <= main@.len(),
            main@.skip(main@.len() - name@.len()) == name@,
        ensures
            match spec_resolve(main@, name@, is_dir, main_is_file, data@, stream, gpu) {
                Ok(v) => r matches Ok(g) && group_view(g) == v,
                Err(m) => r matches Err(e) && e.text() == m,
            },
    {
        Self::resolve(main, name, is_dir, main_is_file, data, stream, gpu)
    }
}

// ---------------------------------------------------------------------------
// Committing a staged group.

/// The files a staged group writes back, each as (staged file, target): the
/// staged main file over the original main file, then each staged sidecar
/// over the original main file's sidecar of that kind. Refused when staging
/// lost a sidecar the original group had.
pub open spec fn spec_commit_plan(original: PatchFileGroup, staged: PatchFileGroup, staged_main: Seq<char>) -> Result<
    Seq<(Seq<char>, Seq<char>)>,
    Seq<char>,
> {
    if original.stream is Some && staged.stream is None {
        Err("staging unexpectedly removed the original `.stream` companion"@)
    } else if original.gpu_resources is Some && staged.gpu_resources is None {
        Err("staging unexpectedly removed the original `.gpu_resources` companion"@)
    } else {
        Ok(
            seq![(staged_main, original.main@)] + (match staged.stream {
                Some(s) => seq![(s@, original.main@ + ".stream"@)],
                None => Seq::empty(),
            }) + (match staged.gpu_resources {
                Some(g) => seq![(g@, original.main@ + ".gpu_resources"@)],
                None => Seq::empty(),
            }),
        )
    }
}

/// Which staged files replace which originals when a staged group is
/// committed (see `spec_commit_plan`).
pub fn commit_plan(original: &PatchFileGroup, staged: &PatchFileGroup, staged_main: &str) -> (r: Result<
    Vec<(String, String)>,
    String,
>)
    ensures
        match spec_commit_plan(*original, *staged, staged_main@) {
            Ok(v) => r matches Ok(x) && x@.map_values(|p: (String, String)| (p.0@, p.1@)) == v,
            Err(m) => r matches Err(x) && x@ == m,
        },
{
    if original.stream.is_some() && staged.stream.is_none() {
        return Err(String::from_str("staging unexpectedly removed the original `.stream` companion"));
    }
    if original.gpu_resources.is_some() && staged.gpu_resources.is_none() {
        return Err(String::from_str("staging unexpectedly removed the original `.gpu_resources` companion"));
    }
    let mut out: Vec<(String, String)> = Vec::new();
    out.push((String::from_str(staged_main), original.main.clone()));
    match &staged.stream {
        Some(s) => out.push((s.clone(), companion_path(original.main.as_str(), ".stream"))),
        None => {},
    }
    match &staged.gpu_resources {
        Some(g) => out.push((g.clone(), companion_path(original.main.as_str(), ".gpu_resources"))),
        None => {},
    }
    let ghost v = out@.map_values(|p: (String, String)| (p.0@, p.1@));
    assert(v =~= (match spec_commit_plan(*original, *staged, staged_main@) {
        Ok(v) => v,
        Err(_) => Seq::empty(),
    }));
    Ok(out)
}

/// Free-function form of `PatchFileGroup::resolve`.
pub fn resolve_patch_file_group(
    path: &str,
    name: &str,
    is_dir: bool,
    main_is_file: bool,
    data: &[u8],
    stream: Companion,
    gpu: Companion,
) -> (r: Result<PatchFileGroup, PatchFileGroupError>)
    requires
        name@.len() <= path@.len(),
        path@.skip(path@.len() - name@.len()) == name@,
    ensures
        match spec_resolve(path@, name@, is_dir, main_is_file, data@, stream, gpu) {
            Ok(v) => r matches Ok(g) && group_view(g) == v,
            Err(m) => r matches Err(e) && e.text() == m,
        },
{
    PatchFileGroup::resolve(path, name, is_dir, main_is_file, data, stream, gpu)
}

// ---------------------------------------------------------------------------
// Laws.

proof fn lemma_last_dot_append_no_dot(a: Seq<char>, b: Seq<char>)
    requires
        forall|k: int| 0 <= k < b.len() ==> b[k] != '.',
    ensures
        last_dot(a + b) == last_dot(a),
    decreases b.len(),
{
    if b.len() > 0 {
        assert((a + b).drop_last() =~= a + b.drop_last());
        lemma_last_dot_append_no_dot(a, b.drop_last());
    } else {
        assert(a + b =~= a);
    }
}

/// The name of a sidecar of `main`, with sidecar extension `ext`.
proof fn lemma_sidecar_name(main: Seq<char>, ext: Seq<char>)
    requires
        spec_is_main_patch_name(main),
        ext.len() > 0,
        forall|k: int| 0 <= k < ext.len() ==> ext[k] != '.',
    ensures
        has_extension(main + seq!['.'] + ext, ext),
        without_extension(main + seq!['.'] + ext) == main,
{
    let n = main + seq!['.'] + ext;
    lemma_last_dot_append_no_dot(main + seq!['.'], ext);
    assert((main + seq!['.']).drop_last() =~= main);
    assert(last_dot(main + seq!['.']) == Some(main.len() as int));
    assert(main.len() > 0);
    assert(n != seq!['.', '.']) by {
        assert(n.len() >= 3);
    }
    assert(n.subrange(main.len() + 1 as int, n.len() as int) =~= ext);
    assert(n.subrange(0, main.len() as int) =~= main);
}

/// A main patch and both of its sidecars name the same main patch: selecting
/// a sidecar never widens or changes the group that is resolved.
pub proof fn law_sidecars_name_their_main(main: Seq<char>)
    requires
        spec_is_main_patch_name(main),
    ensures
        spec_main_name_for(main) == Some(main),
        spec_main_name_for(main + ".stream"@) == Some(main),
        spec_main_name_for(main + ".gpu_resources"@) == Some(main),
{
    reveal_strlit(".stream");
    reveal_strlit(".gpu_resources");
    assert(main.len() > 0);
    // The main name is neither of the sidecar kinds.
    assert(!has_extension(main, stream_ext()) && !has_extension(main, gpu_ext())) by {
        let e = extension(main).unwrap();
        assert(e[0] == 'p');
    }
    lemma_sidecar_name(main, stream_ext());
    assert(main + ".stream"@ =~= main + seq!['.'] + stream_ext());
    lemma_sidecar_name(main, gpu_ext());
    assert(main + ".gpu_resources"@ =~= main + seq!['.'] + gpu_ext());
}

/// Selecting a sidecar resolves to the same main patch path as selecting
/// the main patch itself: `dir + name` and `dir + name + ".stream"` (or
/// `".gpu_resources"`) both give `dir + name`.
pub proof fn law_sidecar_selects_its_group(dir: Seq<char>, name: Seq<char>)
    requires
        spec_is_main_patch_name(name),
    ensures
        spec_main_path_for(dir + name, name, false) == Ok::<Seq<char>, Seq<char>>(dir + name),
        spec_main_path_for(dir + name + ".stream"@, name + ".stream"@, false) == Ok::<Seq<char>, Seq<char>>(
            dir + name,
        ),
        spec_main_path_for(dir + name + ".gpu_resources"@, name + ".gpu_resources"@, false) == Ok::<
            Seq<char>,
            Seq<char>,
        >(dir + name),
{
    law_sidecars_name_their_main(name);
    assert((dir + name).take((dir + name).len() - name.len()) =~= dir);
    let s = name + ".stream"@;
    assert((dir + name + ".stream"@).take((dir + name + ".stream"@).len() - s.len()) =~= dir);
    assert(dir + name + ".stream"@ =~= dir + s);
    let g = name + ".gpu_resources"@;
    assert((dir + name + ".gpu_resources"@).take((dir + name + ".gpu_resources"@).len() - g.len()) =~= dir);
}

/// A group is refused, before anything is staged or changed, when its main
/// file's entries keep stream data but no stream sidecar exists.
pub proof fn law_missing_required_stream_is_refused(main: Seq<char>, data: Seq<u8>, gpu: Companion)
    requires
        spec_required_companions(data, main) matches Ok((true, _)),
    ensures
        spec_group_from_main(main, data, Companion::Missing, gpu) == Err::<
            (Seq<char>, Option<Seq<char>>, Option<Seq<char>>),
            Seq<char>,
        >("main patch '"@ + main + "' references missing required companion '"@ + (main + ".stream"@) + "'"@),
{
}

/// Likewise for GPU data and the `.gpu_resources` sidecar, once the stream
/// sidecar is settled.
pub proof fn law_missing_required_gpu_is_refused(main: Seq<char>, data: Seq<u8>, stream: Companion)
    requires
        spec_required_companions(data, main) matches Ok((needs_stream, true)),
        spec_resolve_companion(main, ".stream"@, spec_required_companions(data, main)->Ok_0.0, stream) is Ok,
    ensures
        spec_group_from_main(main, data, stream, Companion::Missing) == Err::<
            (Seq<char>, Option<Seq<char>>, Option<Seq<char>>),
            Seq<char>,
        >("main patch '"@ + main + "' references missing required companion '"@ + (main + ".gpu_resources"@) + "'"@),
{
}

/// A resolved group names the main patch it was resolved for, and its
/// sidecars are exactly that main path with each sidecar extension.
pub proof fn law_group_names_its_sidecars(main: Seq<char>, data: Seq<u8>, stream: Companion, gpu: Companion)
    requires
        spec_group_from_main(main, data, stream, gpu) is Ok,
    ensures
        ({
            let (m, s, g) = spec_group_from_main(main, data, stream, gpu)->Ok_0;
            &&& m == main
            &&& (s matches Some(p) ==> p == main + ".stream"@)
            &&& (g matches Some(p) ==> p == main + ".gpu_resources"@)
            &&& (s is Some <==> stream is File)
            &&& (g is Some <==> gpu is File)
        }),
{
}


/// Committing a staged group never renames or adds a file: the staged main
/// file replaces the original main file, first; every other target is a
/// sidecar of the original main file; and no original sidecar is left
/// behind, since a commit that would drop one is refused.
pub proof fn law_commit_stays_in_group(original: PatchFileGroup, staged: PatchFileGroup, staged_main: Seq<char>)
    ensures
        spec_commit_plan(original, staged, staged_main) matches Ok(v) ==> {
            &&& v.len() >= 1
            &&& v[0] == (staged_main, original.main@)
            &&& forall|i: int| 1 <= i < v.len() ==> (#[trigger] v[i]).1 == original.main@ + ".stream"@ || v[i].1
                == original.main@ + ".gpu_resources"@
            &&& (original.stream is Some ==> exists|i: int| 1 <= i < v.len() && (#[trigger] v[i]).1 == original.main@
                + ".stream"@)
            &&& (original.gpu_resources is Some ==> exists|i: int| 1 <= i < v.len() && (#[trigger] v[i]).1
                == original.main@ + ".gpu_resources"@)
        },
{
    if let Ok(v) = spec_commit_plan(original, staged, staged_main) {
        let s: Seq<(Seq<char>, Seq<char>)> = match staged.stream {
            Some(x) => seq![(x@, original.main@ + ".stream"@)],
            None => Seq::empty(),
        };
        let g: Seq<(Seq<char>, Seq<char>)> = match staged.gpu_resources {
            Some(x) => seq![(x@, original.main@ + ".gpu_resources"@)],
            None => Seq::empty(),
        };
        assert(v == seq![(staged_main, original.main@)] + s + g);
        if original.stream is Some {
            assert(v[1].1 == original.main@ + ".stream"@);
        }
        if original.gpu_resources is Some {
            assert(v[1 + s.len() as int].1 == original.main@ + ".gpu_resources"@);
        }
    }
}

/// Where the `i`-th TOC entry of a main file stands: after the 72-byte
/// header and one 32-byte type entry per type the header counts, at 80
/// bytes per entry.
pub open spec fn file_entry_pos(data: Seq<u8>, i: int) -> int {
    72 + 32 * le_u32_at(data, 4) + 80 * i
}

/// The `i`-th entry's data offset (as an address) plus its TOC data size.
pub open spec fn file_entry_end(data: Seq<u8>, i: int) -> int {
    (le_u64_at(data, file_entry_pos(data, i) + 16) as usize) as int + le_u32_at(data, file_entry_pos(data, i) + 56) as int
}

/// The `i`-th entry's stream size.
pub open spec fn file_entry_stream_size(data: Seq<u8>, i: int) -> u32 {
    le_u32_at(data, file_entry_pos(data, i) + 60)
}

/// The `i`-th entry's GPU resource size.
pub open spec fn file_entry_gpu_size(data: Seq<u8>, i: int) -> u32 {
    le_u32_at(data, file_entry_pos(data, i) + 64)
}

/// For a main file whose header, type table and file table fit, the file
/// table starts right after the 72-byte header and 32 bytes per type, and
/// the companions are decided by its entries: the group is refused when an
/// entry's data runs past the end of the file; otherwise the stream sidecar
/// is needed exactly when some entry has a stream size, and the GPU sidecar
/// exactly when some entry has a GPU size.
pub proof fn law_companions_read_the_file_table(data: Seq<u8>, main: Seq<char>)
    requires
        72 <= data.len() <= usize::MAX,
        72 + 32 * le_u32_at(data, 4) + 80 * le_u32_at(data, 8) <= data.len(),
    ensures
        ({
            let nf = le_u32_at(data, 8) as int;
            spec_required_companions(data, main) == if exists|i: int| 0 <= i < nf && #[trigger] file_entry_end(data, i) > data.len() {
                Err(patch_msg(main, "' has a TOC resource outside the file"@))
            } else {
                Ok((
                    exists|i: int| 0 <= i < nf && #[trigger] file_entry_stream_size(data, i) > 0,
                    exists|i: int| 0 <= i < nf && #[trigger] file_entry_gpu_size(data, i) > 0,
                ))
            }
        }),
{
    let nt = le_u32_at(data, 4) as int;
    let nf = le_u32_at(data, 8) as int;
    assert(u32_or_zero(data, 4) == nt);
    assert(u32_or_zero(data, 8) == nf);
    let te = 72 + nt * 32;
    assert(spec_table_layout(data, main) == Ok::<(int, int), Seq<char>>((te, nf)));
    assert forall|i: int| 0 <= i < nf implies entry_offset(te, i) == #[trigger] file_entry_pos(data, i) by {}
    let a1 = exists|i: int| 0 <= i < nf && #[trigger] toc_outside(data, entry_offset(te, i));
    let b1 = exists|i: int| 0 <= i < nf && #[trigger] file_entry_end(data, i) > data.len();
    assert(a1 == b1) by {
        if a1 {
            let i = choose|i: int| 0 <= i < nf && #[trigger] toc_outside(data, entry_offset(te, i));
            assert(file_entry_pos(data, i) == entry_offset(te, i));
            assert(file_entry_end(data, i) > data.len());
        }
        if b1 {
            let i = choose|i: int| 0 <= i < nf && #[trigger] file_entry_end(data, i) > data.len();
            assert(file_entry_pos(data, i) == entry_offset(te, i));
            assert(toc_outside(data, entry_offset(te, i)));
        }
    }
    let a2 = exists|i: int| 0 <= i < nf && #[trigger] uses_stream(data, entry_offset(te, i));
    let b2 = exists|i: int| 0 <= i < nf && #[trigger] file_entry_stream_size(data, i) > 0;
    assert(a2 == b2) by {
        if a2 {
            let i = choose|i: int| 0 <= i < nf && #[trigger] uses_stream(data, entry_offset(te, i));
            assert(file_entry_pos(data, i) == entry_offset(te, i));
            assert(file_entry_stream_size(data, i) > 0);
        }
        if b2 {
            let i = choose|i: int| 0 <= i < nf && #[trigger] file_entry_stream_size(data, i) > 0;
            assert(file_entry_pos(data, i) == entry_offset(te, i));
            assert(uses_stream(data, entry_offset(te, i)));
        }
    }
    let a3 = exists|i: int| 0 <= i < nf && #[trigger] uses_gpu(data, entry_offset(te, i));
    let b3 = exists|i: int| 0 <= i < nf && #[trigger] file_entry_gpu_size(data, i) > 0;
    assert(a3 == b3) by {
        if a3 {
            let i = choose|i: int| 0 <= i < nf && #[trigger] uses_gpu(data, entry_offset(te, i));
            assert(file_entry_pos(data, i) == entry_offset(te, i));
            assert(file_entry_gpu_size(data, i) > 0);
        }
        if b3 {
            let i = choose|i: int| 0 <= i < nf && #[trigger] file_entry_gpu_size(data, i) > 0;
            assert(file_entry_pos(data, i) == entry_offset(te, i));
            assert(uses_gpu(data, entry_offset(te, i)));
        }
    }
    assert(!(data.len() < 72));
    assert(a1 == exists|i: int| 0 <= i < nf && #[trigger] toc_outside(data, entry_offset(te, i)));
    if a1 {
        let i = choose|i: int| 0 <= i < nf && #[trigger] toc_outside(data, entry_offset(te, i));
        match spec_table_layout(data, main) {
            Ok((t2, n2)) => {
                assert(t2 == te && n2 == nf);
                assert(toc_outside(data, entry_offset(t2, i)));
            },
            Err(_) => {},
        }
        assert(spec_required_companions(data, main) == Err::<(bool, bool), Seq<char>>(patch_msg(main, "' has a TOC resource outside the file"@)));
    } else {
        match spec_table_layout(data, main) {
            Ok((t2, n2)) => {
                assert(t2 == te && n2 == nf);
                assert(!exists|i: int| 0 <= i < n2 && #[trigger] toc_outside(data, entry_offset(t2, i)));
                assert((exists|i: int| 0 <= i < n2 && #[trigger] uses_stream(data, entry_offset(t2, i))) == a2);
                assert((exists|i: int| 0 <= i < n2 && #[trigger] uses_gpu(data, entry_offset(t2, i))) == a3);
            },
            Err(_) => {},
        }
        assert(spec_required_companions(data, main) == Ok::<(bool, bool), Seq<char>>((a2, a3)));
    }
    assert(spec_required_companions(data, main) == if a1 {
        Err::<(bool, bool), Seq<char>>(patch_msg(main, "' has a TOC resource outside the file"@))
    } else {
        Ok::<(bool, bool), Seq<char>>((a2, a3))
    });
}

} // verus!
