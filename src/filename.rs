//! The names of the files in the store directories. A name says what a file
//! holds: complete data or outboard of a hash, partial data or outboard of a
//! hash and a download id, the legacy list of external paths, or metadata.
use vstd::prelude::*;

use crate::encoding::{
    all_hex, hex_decode, hex_decode_16, hex_decode_32, hex_decode_vec, hex_encode, hex_string,
    lemma_hex_round_trip,
};

verus! {

/// The extension of complete and partial data files.
pub open spec fn ext_data() -> Seq<char> {
    seq!['d', 'a', 't', 'a']
}

/// The extension of outboard files: pre-order bao with chunk groups of
/// 2^4 chunks of 1024 bytes.
pub open spec fn ext_outboard() -> Seq<char> {
    seq!['o', 'b', 'a', 'o', '4']
}

/// The extension of the legacy list of external paths.
pub open spec fn ext_paths() -> Seq<char> {
    seq!['p', 'a', 't', 'h', 's']
}

/// The extension of metadata files.
pub open spec fn ext_meta() -> Seq<char> {
    seq!['m', 'e', 't', 'a']
}

/// A file name that indicates the purpose of the file.
#[derive(Debug, Clone, PartialEq, Eq)]
pub enum FileName {
    /// Incomplete data for the hash, with a unique id
    PartialData(crate::hash::Hash, [u8; 16]),
    /// File is storing data for the hash
    Data(crate::hash::Hash),
    /// File is storing a partial outboard
    PartialOutboard(crate::hash::Hash, [u8; 16]),
    /// File is storing an outboard
    Outboard(crate::hash::Hash),
    /// External paths for the hash, only used in the outdated layout
    Paths(crate::hash::Hash),
    /// File is going to be used to store metadata
    Meta(Vec<u8>),
}

/// A file name as plain byte strings.
pub enum FileNameView {
    PartialData(Seq<u8>, Seq<u8>),
    Data(Seq<u8>),
    PartialOutboard(Seq<u8>, Seq<u8>),
    Outboard(Seq<u8>),
    Paths(Seq<u8>),
    Meta(Seq<u8>),
}

impl View for FileName {
    type V = FileNameView;

    open spec fn view(&self) -> FileNameView {
        match self {
            FileName::PartialData(h, u) => FileNameView::PartialData(h.0@, u@),
            FileName::Data(h) => FileNameView::Data(h.0@),
            FileName::PartialOutboard(h, u) => FileNameView::PartialOutboard(h.0@, u@),
            FileName::Outboard(h) => FileNameView::Outboard(h.0@),
            FileName::Paths(h) => FileNameView::Paths(h.0@),
            FileName::Meta(v) => FileNameView::Meta(v@),
        }
    }
}

/// The name of a file of the given kind.
pub open spec fn name_text(f: FileNameView) -> Seq<char> {
    match f {
        FileNameView::PartialData(h, u) => hex_encode(h) + seq!['-'] + hex_encode(u) + seq!['.']
            + ext_data(),
        FileNameView::PartialOutboard(h, u) => hex_encode(h) + seq!['-'] + hex_encode(u) + seq![
            '.',
        ] + ext_outboard(),
        FileNameView::Data(h) => hex_encode(h) + seq!['.'] + ext_data(),
        FileNameView::Outboard(h) => hex_encode(h) + seq!['.'] + ext_outboard(),
        FileNameView::Paths(h) => hex_encode(h) + seq!['.'] + ext_paths(),
        FileNameView::Meta(v) => hex_encode(v) + seq!['.'] + ext_meta(),
    }
}

/// `k` is the position of the last `c` in `s`.
pub open spec fn is_last(s: Seq<char>, k: int, c: char) -> bool {
    0 <= k < s.len() && s[k] == c && forall|j: int| k < j < s.len() ==> s[j] != c
}

/// `k` is the position of the first `c` in `s`.
pub open spec fn is_first(s: Seq<char>, k: int, c: char) -> bool {
    0 <= k < s.len() && s[k] == c && forall|j: int| 0 <= j < k ==> s[j] != c
}

/// `s` holds no `c`.
pub open spec fn lacks(s: Seq<char>, c: char) -> bool {
    forall|j: int| 0 <= j < s.len() ==> s[j] != c
}

/// The part before the last dot, without one leading dot.
pub open spec fn name_base(s: Seq<char>, k: int) -> Seq<char> {
    let b = s.subrange(0, k);
    if b.len() > 0 && b[0] == '.' {
        b.subrange(1, b.len() as int)
    } else {
        b
    }
}

/// True for 2n hex digits.
pub open spec fn hex_of_len(s: Seq<char>, n: nat) -> bool {
    s.len() == 2 * n && all_hex(s)
}

/// The reading of a name whose base holds a dash at `m`: a hash, a dash, a
/// download id, and the extension of data or outboard.
pub open spec fn dashed_outcome(base: Seq<char>, m: int, ext: Seq<char>, r: Result<FileName, ()>) -> bool {
    let left = base.subrange(0, m);
    let u = base.subrange(m + 1, base.len() as int);
    if hex_of_len(u, 16) && hex_of_len(left, 32) && ext == ext_data() {
        r matches Ok(f) && f@ == FileNameView::PartialData(hex_decode(left), hex_decode(u))
    } else if hex_of_len(u, 16) && hex_of_len(left, 32) && ext == ext_outboard() {
        r matches Ok(f) && f@ == FileNameView::PartialOutboard(hex_decode(left), hex_decode(u))
    } else {
        r is Err
    }
}

/// The reading of a name whose base holds no dash.
pub open spec fn plain_outcome(base: Seq<char>, ext: Seq<char>, r: Result<FileName, ()>) -> bool {
    if ext == ext_meta() {
        if base.len() % 2 == 0 && all_hex(base) {
            r matches Ok(f) && f@ == FileNameView::Meta(hex_decode(base))
        } else {
            r is Err
        }
    } else if hex_of_len(base, 32) && ext == ext_data() {
        r matches Ok(f) && f@ == FileNameView::Data(hex_decode(base))
    } else if hex_of_len(base, 32) && ext == ext_outboard() {
        r matches Ok(f) && f@ == FileNameView::Outboard(hex_decode(base))
    } else if hex_of_len(base, 32) && ext == ext_paths() {
        r matches Ok(f) && f@ == FileNameView::Paths(hex_decode(base))
    } else {
        r is Err
    }
}

/// The reading of a name: split at the last dot into base and extension,
/// drop one leading dot of the base, split the base at its first dash.
pub open spec fn parse_outcome(s: Seq<char>, r: Result<FileName, ()>) -> bool {
    &&& lacks(s, '.') ==> r is Err
    &&& forall|k: int| #[trigger]
        is_last(s, k, '.') ==> {
            let base = name_base(s, k);
            let ext = s.subrange(k + 1, s.len() as int);
            &&& lacks(base, '-') ==> plain_outcome(base, ext, r)
            &&& forall|m: int| #[trigger]
                is_first(base, m, '-') ==> dashed_outcome(base, m, ext, r)
        }
}

/// What a name with a dash at `m` in its base reads as.
pub open spec fn dashed_view(base: Seq<char>, m: int, ext: Seq<char>) -> Option<FileNameView> {
    let left = base.subrange(0, m);
    let u = base.subrange(m + 1, base.len() as int);
    if hex_of_len(u, 16) && hex_of_len(left, 32) && ext == ext_data() {
        Some(FileNameView::PartialData(hex_decode(left), hex_decode(u)))
    } else if hex_of_len(u, 16) && hex_of_len(left, 32) && ext == ext_outboard() {
        Some(FileNameView::PartialOutboard(hex_decode(left), hex_decode(u)))
    } else {
        None
    }
}

/// What a name whose base holds no dash reads as.
pub open spec fn plain_view(base: Seq<char>, ext: Seq<char>) -> Option<FileNameView> {
    if ext == ext_meta() {
        if base.len() % 2 == 0 && all_hex(base) {
            Some(FileNameView::Meta(hex_decode(base)))
        } else {
            None
        }
    } else if hex_of_len(base, 32) && ext == ext_data() {
        Some(FileNameView::Data(hex_decode(base)))
    } else if hex_of_len(base, 32) && ext == ext_outboard() {
        Some(FileNameView::Outboard(hex_decode(base)))
    } else if hex_of_len(base, 32) && ext == ext_paths() {
        Some(FileNameView::Paths(hex_decode(base)))
    } else {
        None
    }
}

/// What a file name reads as, if anything.
pub open spec fn parse_view(s: Seq<char>) -> Option<FileNameView> {
    if lacks(s, '.') {
        None
    } else {
        let k = choose|k: int| is_last(s, k, '.');
        let base = name_base(s, k);
        let ext = s.subrange(k + 1, s.len() as int);
        if lacks(base, '-') {
            plain_view(base, ext)
        } else {
            let m = choose|m: int| is_first(base, m, '-');
            dashed_view(base, m, ext)
        }
    }
}

/// The outcome of reading a name is what `parse_view` says.
pub proof fn lemma_parse_view(s: Seq<char>, r: Result<FileName, ()>)
    requires
        parse_outcome(s, r),
    ensures
        match r {
            Ok(f) => parse_view(s) == Some(f@),
            Err(_) => parse_view(s) is None,
        },
{
    if !lacks(s, '.') {
        let j = choose|j: int| 0 <= j < s.len() && s[j] == '.';
        lemma_last_exists(s, j);
        let k = choose|k: int| is_last(s, k, '.');
        assert(is_last(s, k, '.'));
        let base = name_base(s, k);
        if !lacks(base, '-') {
            let i = choose|i: int| 0 <= i < base.len() && base[i] == '-';
            lemma_first_exists(base, i);
            let m = choose|m: int| is_first(base, m, '-');
            assert(is_first(base, m, '-'));
        }
    }
}

proof fn lemma_last_exists(s: Seq<char>, j: int)
    requires
        0 <= j < s.len(),
        s[j] == '.',
    ensures
        exists|k: int| is_last(s, k, '.'),
    decreases s.len() - j,
{
    if forall|i: int| j < i < s.len() ==> s[i] != '.' {
        assert(is_last(s, j, '.'));
    } else {
        let i = choose|i: int| j < i < s.len() && s[i] == '.';
        lemma_last_exists(s, i);
    }
}

proof fn lemma_first_exists(s: Seq<char>, j: int)
    requires
        0 <= j < s.len(),
        s[j] == '-',
    ensures
        exists|k: int| is_first(s, k, '-'),
    decreases j,
{
    if forall|i: int| 0 <= i < j ==> s[i] != '-' {
        assert(is_first(s, j, '-'));
    } else {
        let i = choose|i: int| 0 <= i < j && s[i] == '-';
        lemma_first_exists(s, i);
    }
}

/// The last component of a path, when it is a file name.
pub uninterp spec fn file_name_of(p: Seq<char>) -> Option<Seq<char>>;

/// Relies on std::path::Path::file_name: the final component of the path,
/// if it is a normal one.
#[verifier::external_body]
fn path_file_name(p: &str) -> (r: Option<String>)
    ensures
        match file_name_of(p@) {
            Some(n) => r matches Some(s) && s@ == n,
            None => r is None,
        },
{
    std::path::Path::new(p).file_name().and_then(|n| n.to_str()).map(|n| n.to_string())
}

/// Why a path names no file of the store.
#[derive(Debug, Clone, Copy, PartialEq, Eq, Structural)]
pub enum FileNameError {
    /// The path has no final file name.
    NoFileName,
    /// The file name is not one of the store's.
    InvalidFileName,
}

/// Position of the last `c` in `s`.
fn find_last(s: &str, c: char) -> (r: Option<usize>)
    ensures
        r matches Some(k) ==> is_last(s@, k as int, c),
        r is None ==> lacks(s@, c),
{
    let mut i = s.unicode_len();
    while i > 0
        invariant
            i <= s@.len(),
            forall|j: int| i <= j < s@.len() ==> s@[j] != c,
        decreases i,
    {
        i = i - 1;
        if s.get_char(i) == c {
            return Some(i);
        }
    }
    None
}

/// Position of the first `c` in `s`.
fn find_first(s: &str, c: char) -> (r: Option<usize>)
    ensures
        r matches Some(k) ==> is_first(s@, k as int, c),
        r is None ==> lacks(s@, c),
{
    let n = s.unicode_len();
    let mut i: usize = 0;
    while i < n
        invariant
            i <= n,
            n == s@.len(),
            forall|j: int| 0 <= j < i ==> s@[j] != c,
        decreases n - i,
    {
        if s.get_char(i) == c {
            return Some(i);
        }
        i = i + 1;
    }
    None
}

/// Whether two strings hold the same characters.
fn same_text(a: &str, b: &str) -> (r: bool)
    ensures
        r == (a@ == b@),
{
    let n = a.unicode_len();
    if n != b.unicode_len() {
        return false;
    }
    let mut i: usize = 0;
    while i < n
        invariant
            i <= n,
            n == a@.len(),
            n == b@.len(),
            forall|j: int| 0 <= j < i ==> a@[j] == b@[j],
        decreases n - i,
    {
        if a.get_char(i) != b.get_char(i) {
            return false;
        }
        i = i + 1;
    }
    assert(a@ =~= b@);
    true
}

impl FileName {
    /// The name of the file.
    pub fn to_string(&self) -> (r: String)
        ensures
            r@ == name_text(self@),
    {
        proof {
            reveal_strlit("-");
            reveal_strlit(".data");
            reveal_strlit(".obao4");
            reveal_strlit(".paths");
            reveal_strlit(".meta");
        }
        match self {
            FileName::PartialData(hash, uuid) => {
                let mut s = hex_string(&hash.0);
                s.append("-");
                let u = hex_string(uuid);
                s.append(u.as_str());
                s.append(".data");
                assert(s@ =~= name_text(self@));
                s
            },
            FileName::PartialOutboard(hash, uuid) => {
                let mut s = hex_string(&hash.0);
                s.append("-");
                let u = hex_string(uuid);
                s.append(u.as_str());
                s.append(".obao4");
                assert(s@ =~= name_text(self@));
                s
            },
            FileName::Paths(hash) => {
                let mut s = hex_string(&hash.0);
                s.append(".paths");
                assert(s@ =~= name_text(self@));
                s
            },
            FileName::Data(hash) => {
                let mut s = hex_string(&hash.0);
                s.append(".data");
                assert(s@ =~= name_text(self@));
                s
            },
            FileName::Outboard(hash) => {
                let mut s = hex_string(&hash.0);
                s.append(".obao4");
                assert(s@ =~= name_text(self@));
                s
            },
            FileName::Meta(name) => {
                let mut s = hex_string(name.as_slice());
                s.append(".meta");
                assert(s@ =~= name_text(self@));
                s
            },
        }
    }

    /// Reads the purpose of a file from its name.
    pub fn from_str(s: &str) -> (r: Result<FileName, ()>)
        ensures
            parse_outcome(s@, r),
    {
        proof {
            reveal_strlit("data");
            reveal_strlit("obao4");
            reveal_strlit("paths");
            reveal_strlit("meta");
            assert("data"@ =~= ext_data());
            assert("obao4"@ =~= ext_outboard());
            assert("paths"@ =~= ext_paths());
            assert("meta"@ =~= ext_meta());
        }
        let k = match find_last(s, '.') {
            Some(k) => k,
            None => return Err(()),
        };
        let n = s.unicode_len();
        let base0 = s.substring_char(0, k);
        let ext = s.substring_char(k + 1, n);
        let base = if base0.unicode_len() > 0 && base0.get_char(0) == '.' {
            base0.substring_char(1, base0.unicode_len())
        } else {
            base0
        };
        assert(base@ == name_base(s@, k as int));
        assert forall|k2: int| #[trigger] is_last(s@, k2, '.') implies k2 == k by {
            if k2 < k {
                assert(s@[k as int] != '.');
            } else if k2 > k {
                assert(s@[k2] != '.');
            }
        }
        assert(s@.subrange(k + 1, s@.len() as int) == ext@);
        let is_data = same_text(ext, "data");
        let is_outboard = same_text(ext, "obao4");
        match find_first(base, '-') {
            Some(m) => {
                assert forall|m2: int| #[trigger] is_first(base@, m2, '-') implies m2 == m by {
                    if m2 < m {
                        assert(base@[m2] != '-');
                    } else if m2 > m {
                        assert(base@[m as int] != '-');
                    }
                }
                let left = base.substring_char(0, m);
                let uuid_text = base.substring_char(m + 1, base.unicode_len());
                let uuid = match hex_decode_16(uuid_text) {
                    Some(u) => u,
                    None => return Err(()),
                };
                if is_data {
                    match hex_decode_32(left) {
                        Some(h) => Ok(FileName::PartialData(crate::hash::Hash(h), uuid)),
                        None => Err(()),
                    }
                } else if is_outboard {
                    match hex_decode_32(left) {
                        Some(h) => Ok(FileName::PartialOutboard(crate::hash::Hash(h), uuid)),
                        None => Err(()),
                    }
                } else {
                    Err(())
                }
            },
            None => {
                if same_text(ext, "meta") {
                    match hex_decode_vec(base) {
                        Some(v) => Ok(FileName::Meta(v)),
                        None => Err(()),
                    }
                } else {
                    let h = match hex_decode_32(base) {
                        Some(h) => h,
                        None => return Err(()),
                    };
                    if is_data {
                        Ok(FileName::Data(crate::hash::Hash(h)))
                    } else if is_outboard {
                        Ok(FileName::Outboard(crate::hash::Hash(h)))
                    } else if same_text(ext, "paths") {
                        Ok(FileName::Paths(crate::hash::Hash(h)))
                    } else {
                        Err(())
                    }
                }
            },
        }
    }

    /// Reads the purpose of a file from the last component of its path.
    pub fn from_path(path: &str) -> (r: Result<FileName, FileNameError>)
        ensures
            match file_name_of(path@) {
                None => r == Err::<FileName, FileNameError>(FileNameError::NoFileName),
                Some(n) => match parse_view(n) {
                    Some(f) => r matches Ok(g) && g@ == f,
                    None => r == Err::<FileName, FileNameError>(FileNameError::InvalidFileName),
                },
            },
    {
        let name = match path_file_name(path) {
            Some(n) => n,
            None => return Err(FileNameError::NoFileName),
        };
        let parsed = FileName::from_str(name.as_str());
        proof {
            lemma_parse_view(name@, parsed);
        }
        match parsed {
            Ok(f) => Ok(f),
            Err(_) => Err(FileNameError::InvalidFileName),
        }
    }

    /// True if the purpose is for a temporary file.
    pub fn temporary(&self) -> (r: bool)
        ensures
            r == (self is PartialData || self is PartialOutboard),
    {
        match self {
            FileName::PartialData(_, _) => true,
            FileName::Data(_) => false,
            FileName::PartialOutboard(_, _) => true,
            FileName::Outboard(_) => false,
            FileName::Meta(_) => false,
            FileName::Paths(_) => false,
        }
    }
}

/// Hex text holds no dot and no dash.
proof fn lemma_hex_plain(b: Seq<u8>)
    ensures
        all_hex(hex_encode(b)),
        lacks(hex_encode(b), '.'),
        lacks(hex_encode(b), '-'),
        hex_decode(hex_encode(b)) == b,
{
    lemma_hex_round_trip(b);
    let e = hex_encode(b);
    assert forall|j: int| 0 <= j < e.len() implies e[j] != '.' && e[j] != '-' by {
        assert(crate::encoding::is_hex_char(e[j]));
    }
}

/// Splitting `a + "." + e` at its last dot, where neither part holds a dot.
proof fn lemma_split_last_dot(a: Seq<char>, e: Seq<char>, r: Result<FileName, ()>)
    requires
        lacks(a, '.'),
        lacks(e, '.'),
        parse_outcome(a + seq!['.'] + e, r),
        a.len() == 0 || a[0] != '.',
    ensures
        lacks(a, '-') ==> plain_outcome(a, e, r),
        forall|m: int| #[trigger] is_first(a, m, '-') ==> dashed_outcome(a, m, e, r),
{
    let s = a + seq!['.'] + e;
    let k = a.len() as int;
    assert(s[k] == '.');
    assert forall|j: int| k < j < s.len() implies s[j] != '.' by {
        assert(s[j] == e[j - k - 1]);
    }
    assert(is_last(s, k, '.'));
    assert(s.subrange(0, k) =~= a);
    assert(s.subrange(k + 1, s.len() as int) =~= e);
    assert(name_base(s, k) == a);
}

/// Every file name reads back from its text as the same name.
pub proof fn lemma_file_name_round_trip(x: FileName, r: Result<FileName, ()>)
    requires
        parse_outcome(name_text(x@), r),
    ensures
        r matches Ok(y) && y@ == x@,
{
    reveal_with_fuel(name_text, 1);
    match x {
        FileName::PartialData(h, u) | FileName::PartialOutboard(h, u) => {
            let hh = hex_encode(h.0@);
            let uu = hex_encode(u@);
            lemma_hex_plain(h.0@);
            lemma_hex_plain(u@);
            let a = hh + seq!['-'] + uu;
            let e = if x is PartialData { ext_data() } else { ext_outboard() };
            assert(name_text(x@) =~= a + seq!['.'] + e);
            assert forall|j: int| 0 <= j < a.len() implies a[j] != '.' by {
                if j < hh.len() {
                    assert(a[j] == hh[j]);
                } else if j > hh.len() {
                    assert(a[j] == uu[j - hh.len() - 1]);
                }
            }
            assert(hh.len() == 64);
            assert(a[0] == hh[0]);
            lemma_split_last_dot(a, e, r);
            let m = hh.len() as int;
            assert forall|j: int| 0 <= j < m implies a[j] != '-' by {
                assert(a[j] == hh[j]);
            }
            assert(is_first(a, m, '-'));
            assert(a.subrange(0, m) =~= hh);
            assert(a.subrange(m + 1, a.len() as int) =~= uu);
        },
        FileName::Data(h) | FileName::Outboard(h) | FileName::Paths(h) => {
            let hh = hex_encode(h.0@);
            lemma_hex_plain(h.0@);
            let e = if x is Data {
                ext_data()
            } else if x is Outboard {
                ext_outboard()
            } else {
                ext_paths()
            };
            assert(name_text(x@) =~= hh + seq!['.'] + e);
            assert(hh[0] != '.');
            lemma_split_last_dot(hh, e, r);
            assert(e != ext_meta()) by {
                if x is Data {
                    assert(e[0] != ext_meta()[0]);
                } else if x is Outboard {
                    assert(e.len() != ext_meta().len());
                } else {
                    assert(e.len() != ext_meta().len());
                }
            }
            if x is Outboard {
                assert(e != ext_data());
            }
            if x is Paths {
                assert(e != ext_data());
                assert(e[0] != ext_outboard()[0]);
            }
        },
        FileName::Meta(v) => {
            let hh = hex_encode(v@);
            lemma_hex_plain(v@);
            assert(name_text(x@) =~= hh + seq!['.'] + ext_meta());
            lemma_split_last_dot(hh, ext_meta(), r);
        },
    }
}

} // verus!
