//! Model registry: entries with one or more ONNX parts, lookups by name,
//! cache file naming and SHA-256 verification of cached files.

use vstd::prelude::*;
use sha2::Digest;
use crate::text::has_substring;

verus! {

/// One downloadable ONNX file of a model.
#[derive(Debug, Clone)]
pub struct ModelPart {
    /// Logical name an adapter looks up (`"model"`, `"encoder"`, ...).
    pub name: String,
    pub url: String,
    pub sha256: String,
    pub size_mb: u32,
}

/// One registry entry. Adapters dispatch on `family` and pick parts by
/// name.
#[derive(Debug, Clone)]
pub struct ModelEntry {
    pub name: String,
    /// Family selector (`"ritm"`, `"focalclick"`, `"mobile_sam"`, ...).
    pub family: String,
    /// `[height, width]` the model was exported for.
    pub input_size: [u32; 2],
    pub license: String,
    pub notes: String,
    /// The ONNX files that make up this model.
    pub parts: Vec<ModelPart>,
}

/// `r` is the first element of `items` (by the names `names`) named
/// `name`, or `None` when there is none.
pub open spec fn is_first_named<T>(items: Seq<T>, names: Seq<Seq<char>>, name: Seq<char>, r: Option<T>) -> bool {
    &&& names.len() == items.len()
    &&& match r {
        Some(x) => exists|i: int|
            0 <= i < items.len() && items[i] == x && names[i] == name && forall|j: int|
                0 <= j < i ==> names[j] != name,
        None => forall|i: int| 0 <= i < items.len() ==> names[i] != name,
    }
}

pub open spec fn part_names(parts: Seq<ModelPart>) -> Seq<Seq<char>> {
    parts.map_values(|p: ModelPart| p.name@)
}

pub open spec fn entry_names(models: Seq<ModelEntry>) -> Seq<Seq<char>> {
    models.map_values(|m: ModelEntry| m.name@)
}

impl ModelEntry {
    /// The first part named `name`.
    pub fn part(&self, name: &str) -> (r: Option<&ModelPart>)
        ensures
            is_first_named(self.parts@, part_names(self.parts@), name@, match r {
                Some(p) => Some(*p),
                None => None,
            }),
    {
        let key = String::from_str(name);
        let mut i: usize = 0;
        while i < self.parts.len()
            invariant
                i <= self.parts@.len(),
                key@ == name@,
                forall|j: int| 0 <= j < i ==> self.parts@[j].name@ != name@,
            decreases self.parts@.len() - i,
        {
            if self.parts[i].name == key {
                assert(part_names(self.parts@)[i as int] == name@);
                assert(forall|j: int| 0 <= j < i ==> part_names(self.parts@)[j] != name@);
                return Some(&self.parts[i]);
            }
            i = i + 1;
        }
        None
    }
}

/// The whole registry file.
#[derive(Debug, Clone)]
pub struct Registry {
    pub models: Vec<ModelEntry>,
}

impl Registry {
    /// The first entry named `name`.
    pub fn get(&self, name: &str) -> (r: Option<&ModelEntry>)
        ensures
            is_first_named(self.models@, entry_names(self.models@), name@, match r {
                Some(m) => Some(*m),
                None => None,
            }),
    {
        let key = String::from_str(name);
        let mut i: usize = 0;
        while i < self.models.len()
            invariant
                i <= self.models@.len(),
                key@ == name@,
                forall|j: int| 0 <= j < i ==> self.models@[j].name@ != name@,
            decreases self.models@.len() - i,
        {
            if self.models[i].name == key {
                assert(entry_names(self.models@)[i as int] == name@);
                assert(forall|j: int| 0 <= j < i ==> entry_names(self.models@)[j] != name@);
                return Some(&self.models[i]);
            }
            i = i + 1;
        }
        None
    }
}

/// Errors of registry operations. Outside errors (I/O, TOML) are carried
/// as their text.
#[derive(Debug, Clone, PartialEq, Eq)]
pub enum RegistryError {
    Io(String),
    Toml(String),
    Missing { name: String, path: String },
    Sha256Mismatch { name: String },
    Download(String),
}

/// Lowercase hexadecimal digit of a nibble.
pub open spec fn hex_digit(v: int) -> char {
    "0123456789abcdef"@[v]
}

/// Lowercase hexadecimal encoding, two digits per byte, high nibble first.
pub open spec fn hex_lower(bytes: Seq<u8>) -> Seq<char>
    decreases bytes.len(),
{
    if bytes.len() == 0 {
        Seq::empty()
    } else {
        hex_lower(bytes.drop_last()) + seq![
            hex_digit(bytes.last() as int / 16),
            hex_digit(bytes.last() as int % 16),
        ]
    }
}

/// Append a character to a string.
///
/// Calls `String::push`, which appends `c` at the end of `s`.
#[verifier::external_body]
pub(crate) fn push_char(s: &mut String, c: char)
    ensures
        final(s)@ == old(s)@.push(c),
{
    s.push(c);
}

pub(crate) const HEX_DIGITS: [char; 16] = [
    '0',
    '1',
    '2',
    '3',
    '4',
    '5',
    '6',
    '7',
    '8',
    '9',
    'a',
    'b',
    'c',
    'd',
    'e',
    'f',
];

/// Lowercase hex encoding of `bytes`.
pub fn hex_encode(bytes: &[u8]) -> (s: String)
    ensures
        s@ == hex_lower(bytes@),
{
    let mut s = String::new();
    let mut i: usize = 0;
    proof {
        reveal_strlit("0123456789abcdef");
    }
    while i < bytes.len()
        invariant
            i <= bytes@.len(),
            s@ == hex_lower(bytes@.take(i as int)),
            HEX_DIGITS@ == "0123456789abcdef"@,
        decreases bytes@.len() - i,
    {
        let b = bytes[i];
        let hi = (b / 16) as usize;
        let lo = (b % 16) as usize;
        push_char(&mut s, HEX_DIGITS[hi]);
        push_char(&mut s, HEX_DIGITS[lo]);
        proof {
            assert(bytes@.take(i + 1).drop_last() =~= bytes@.take(i as int));
            assert(bytes@.take(i + 1).last() == b);
        }
        i = i + 1;
    }
    assert(bytes@.take(bytes@.len() as int) =~= bytes@);
    s
}

/// SHA-256 digest of a byte string.
pub uninterp spec fn sha256_of(data: Seq<u8>) -> Seq<u8>;

/// SHA-256 digest of `data`.
///
/// Calls `sha2::Sha256::digest`. The contract claims that the digest is the
/// named function of the input bytes and is 32 bytes long (SHA-256 output
/// size).
#[verifier::external_body]
fn sha256_digest(data: &[u8]) -> (d: Vec<u8>)
    ensures
        d@ == sha256_of(data@),
        d@.len() == 32,
{
    sha2::Sha256::digest(data).to_vec()
}

/// SHA-256 of `data` as lowercase hex.
pub fn sha256_hex(data: &[u8]) -> (s: String)
    ensures
        s@ == hex_lower(sha256_of(data@)),
        s@.len() == 64,
{
    let d = sha256_digest(data);
    proof {
        lemma_hex_lower_len(d@);
    }
    hex_encode(d.as_slice())
}

proof fn lemma_hex_lower_len(bytes: Seq<u8>)
    ensures
        hex_lower(bytes).len() == 2 * bytes.len(),
    decreases bytes.len(),
{
    if bytes.len() > 0 {
        lemma_hex_lower_len(bytes.drop_last());
    }
}

/// An expected hash that accepts any file: empty, or only `'0'` digits.
pub open spec fn is_wildcard_hash(expected: Seq<char>) -> bool {
    expected.len() == 0 || forall|i: int| 0 <= i < expected.len() ==> expected[i] == '0'
}

/// ASCII lowercase of one character.
pub open spec fn ascii_lower(c: char) -> char {
    if 'A' <= c <= 'Z' {
        ((c as u32) + 32) as char
    } else {
        c
    }
}

/// Equal up to ASCII case.
pub open spec fn eq_ignore_ascii_case(a: Seq<char>, b: Seq<char>) -> bool {
    a.len() == b.len() && forall|i: int| 0 <= i < a.len() ==> ascii_lower(a[i]) == ascii_lower(b[i])
}

/// Whether `expected` accepts any file (empty or all zeros).
pub fn expected_is_wildcard(expected: &str) -> (b: bool)
    ensures
        b == is_wildcard_hash(expected@),
{
    let n = expected.unicode_len();
    let mut i: usize = 0;
    while i < n
        invariant
            n == expected@.len(),
            i <= n,
            forall|j: int| 0 <= j < i ==> expected@[j] == '0',
        decreases n - i,
    {
        if expected.get_char(i) != '0' {
            return n == 0;
        }
        i = i + 1;
    }
    true
}

fn lower_char(c: char) -> (r: char)
    ensures
        r == ascii_lower(c),
{
    if 'A' <= c && c <= 'Z' {
        let b = (c as u8) + 32;
        b as char
    } else {
        c
    }
}

/// ASCII case-insensitive string comparison.
pub fn str_eq_ignore_ascii_case(a: &str, b: &str) -> (r: bool)
    ensures
        r == eq_ignore_ascii_case(a@, b@),
{
    let n = a.unicode_len();
    let m = b.unicode_len();
    if n != m {
        return false;
    }
    let mut i: usize = 0;
    while i < n
        invariant
            n == a@.len(),
            m == b@.len(),
            n == m,
            i <= n,
            forall|j: int| 0 <= j < i ==> ascii_lower(a@[j]) == ascii_lower(b@[j]),
        decreases n - i,
    {
        if lower_char(a.get_char(i)) != lower_char(b.get_char(i)) {
            return false;
        }
        i = i + 1;
    }
    true
}

/// Check a cached file against its pinned SHA-256.
///
/// A wildcard hash (empty or all zeros) accepts any file without reading
/// it: `Some(true)`. Otherwise the file's bytes are needed; without them
/// the answer is `None` (read the file and ask again), with them it is
/// whether their SHA-256 matches `expected_hex` up to ASCII case.
pub fn verify_sha256(expected_hex: &str, contents: Option<&[u8]>) -> (r: Option<bool>)
    ensures
        is_wildcard_hash(expected_hex@) ==> r == Some(true),
        !is_wildcard_hash(expected_hex@) && contents is None ==> r is None,
        !is_wildcard_hash(expected_hex@) && contents is Some ==> r == Some(
            eq_ignore_ascii_case(hex_lower(sha256_of(contents->Some_0@)), expected_hex@),
        ),
{
    if expected_is_wildcard(expected_hex) {
        return Some(true);
    }
    match contents {
        None => None,
        Some(data) => {
            let got = sha256_hex(data);
            Some(str_eq_ignore_ascii_case(got.as_str(), expected_hex))
        },
    }
}

/// A pinned hash with any digit other than `'0'` is never a wildcard, so
/// [`verify_sha256`] checks the file against it; only the empty hash and
/// hashes made of `'0'` alone accept any file.
pub proof fn lemma_wildcard_exactly_zeros(expected: Seq<char>)
    ensures
        (exists|i: int| 0 <= i < expected.len() && #[trigger] expected[i] != '0') ==> !is_wildcard_hash(
            expected,
        ),
        (forall|i: int| 0 <= i < expected.len() ==> #[trigger] expected[i] == '0') ==> is_wildcard_hash(
            expected,
        ),
{
}

/// A file verifies against the hash [`sha256_hex`] computes for its
/// contents: whatever those contents, [`verify_sha256`] with that hash and
/// those contents gives `Some(true)`.
pub proof fn lemma_own_hash_verifies(expected: Seq<char>, data: Seq<u8>)
    requires
        expected == hex_lower(sha256_of(data)),
    ensures
        is_wildcard_hash(expected) || eq_ignore_ascii_case(hex_lower(sha256_of(data)), expected),
{
}

/// File name of a cached part: `"<entry>--<part>.onnx"`.
pub fn part_file_name(entry_name: &str, part_name: &str) -> (s: String)
    ensures
        s@ == entry_name@ + "--"@ + part_name@ + ".onnx"@,
{
    let mut s = String::from_str(entry_name);
    s.append("--");
    s.append(part_name);
    s.append(".onnx");
    s
}

/// Display name of a part: `"<entry>/<part>"`.
pub fn part_label(entry_name: &str, part_name: &str) -> (s: String)
    ensures
        s@ == entry_name@ + "/"@ + part_name@,
{
    let mut s = String::from_str(entry_name);
    s.append("/");
    s.append(part_name);
    s
}

/// Outcome for one part once its cache file has been checked: a present
/// file that passed verification resolves to `(part name, path)`; anything
/// else is `Missing` (downloads are disabled).
pub fn resolve_part(entry_name: &str, part_name: &str, dest: String, cached_ok: bool) -> (r: Result<
    (String, String),
    RegistryError,
>)
    ensures
        cached_ok ==> r is Ok && r->Ok_0.0@ == part_name@ && r->Ok_0.1 == dest,
        !cached_ok ==> r is Err && (match r {
            Err(RegistryError::Missing { name, path }) => name@ == entry_name@ + "/"@ + part_name@
                && path == dest,
            _ => false,
        }),
{
    if cached_ok {
        Ok((String::from_str(part_name), dest))
    } else {
        Err(RegistryError::Missing { name: part_label(entry_name, part_name), path: dest })
    }
}

/// An application name that every platform keeps unchanged in its
/// project directory: non-empty, lowercase ASCII letters and digits only.
pub open spec fn is_plain_app_name(s: Seq<char>) -> bool {
    &&& s.len() > 0
    &&& forall|i: int| 0 <= i < s.len() ==> ('a' <= #[trigger] s[i] <= 'z' || '0' <= s[i] <= '9')
}

/// The platform cache directory of an application, if the platform has
/// one.
///
/// Calls `directories::ProjectDirs::from(qualifier, organization,
/// application)` and takes its `cache_dir`, read back lossily as UTF-8.
/// Which directory that is depends on the platform and the environment and
/// is not claimed. What is claimed: the cache directory ends in a project
/// path built from the application name (lowercased with whitespace
/// removed on Linux, spaces turned to `-` on macOS, unchanged on Windows),
/// so a name of lowercase ASCII letters and digits appears in its text
/// unchanged; on wasm there is none.
#[verifier::external_body]
fn project_cache_dir(qualifier: &str, organization: &str, application: &str) -> (r: Option<String>)
    ensures
        r is Some && is_plain_app_name(application@) ==> has_substring(r->Some_0@, application@),
{
    directories::ProjectDirs::from(qualifier, organization, application).map(
        |p| p.cache_dir().to_string_lossy().into_owned(),
    )
}

/// The cache directory to use: the platform one when there is one, else
/// `"./models"`.
pub fn cache_dir_or_default(found: Option<String>) -> (s: String)
    ensures
        found is Some ==> s == found->Some_0,
        found is None ==> s@ == "./models"@,
{
    match found {
        Some(d) => d,
        None => String::from_str("./models"),
    }
}

/// Where to keep downloaded model files: the platform cache directory of
/// snapseg (a path naming it), or `"./models"` when the platform has none.
pub fn default_cache_dir() -> (s: String)
    ensures
        s@ == "./models"@ || has_substring(s@, "snapseg"@),
{
    proof {
        reveal_strlit("snapseg");
    }
    assert(is_plain_app_name("snapseg"@));
    cache_dir_or_default(project_cache_dir("dev", "vitavision", "snapseg"))
}

} // verus!
