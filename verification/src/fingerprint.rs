//! Deterministic synthetic device identities.
//!
//! Each credential presents a stable client fingerprint derived from a
//! seed string: a 256-bit digest of the seed supplies index bytes that
//! select every field from fixed candidate tables, so the same seed always
//! yields the byte-identical identity.

use sha2::Digest;
use vstd::prelude::*;

verus! {

use vstd::string::StringExecFns;

/// Relies on sha2's SHA-256: the digest is a pure function of the input
/// characters alone, identical across calls, processes and machines.
pub uninterp spec fn sha256_of(s: Seq<char>) -> Seq<u8>;

/// Relies on `sha2::Sha256`: computes the 32-byte SHA-256 digest of the
/// UTF-8 bytes of `s`.
#[verifier::external_body]
fn sha256_digest(s: &str) -> (r: Vec<u8>)
    ensures
        r@ == sha256_of(s@),
        r@.len() == 32,
{
    let mut hasher = sha2::Sha256::new();
    hasher.update(s.as_bytes());
    hasher.finalize().to_vec()
}

/// The digit character for `d < 16`, lower case.
pub open spec fn hex_digit_char(d: u8) -> char {
    if d == 0 { '0' }
    else if d == 1 { '1' }
    else if d == 2 { '2' }
    else if d == 3 { '3' }
    else if d == 4 { '4' }
    else if d == 5 { '5' }
    else if d == 6 { '6' }
    else if d == 7 { '7' }
    else if d == 8 { '8' }
    else if d == 9 { '9' }
    else if d == 10 { 'a' }
    else if d == 11 { 'b' }
    else if d == 12 { 'c' }
    else if d == 13 { 'd' }
    else if d == 14 { 'e' }
    else { 'f' }
}

/// Lower-case hex encoding: two digits per byte, high nibble first.
pub open spec fn hex_of(bytes: Seq<u8>) -> Seq<char> {
    Seq::new(
        bytes.len() * 2,
        |i: int|
            if i % 2 == 0 {
                hex_digit_char(bytes[i / 2] / 16)
            } else {
                hex_digit_char(bytes[i / 2] % 16)
            },
    )
}

fn hex_digit(d: u8) -> (c: char)
    requires
        d < 16,
    ensures
        c == hex_digit_char(d),
{
    match d {
        0 => '0',
        1 => '1',
        2 => '2',
        3 => '3',
        4 => '4',
        5 => '5',
        6 => '6',
        7 => '7',
        8 => '8',
        9 => '9',
        10 => 'a',
        11 => 'b',
        12 => 'c',
        13 => 'd',
        14 => 'e',
        _ => 'f',
    }
}

/// The lower-case hex rendering of `bytes`: two digits per byte, high
/// nibble first.
fn hex_encode(bytes: &Vec<u8>) -> (r: String)
    ensures
        r@ == hex_of(bytes@),
{
    let n = bytes.len();
    let mut out = String::new();
    let mut i: usize = 0;
    while i < n
        invariant
            n == bytes@.len(),
            i <= n,
            out@.len() == 2 * i,
            forall|m: int| 0 <= m < 2 * i ==> out@[m] == hex_of(bytes@)[m],
        decreases n - i,
    {
        let b = bytes[i];
        crate::text::string_push(&mut out, hex_digit(b / 16));
        crate::text::string_push(&mut out, hex_digit(b % 16));
        i = i + 1;
    }
    proof {
        assert(out@ =~= hex_of(bytes@));
    }
    out
}

/// Relies on `fastrand::u64`: a fresh seed string for fingerprints that
/// need no determinism. Nothing is promised of the value.
#[verifier::external_body]
fn random_seed() -> String {
    format!("random-{}", fastrand::u64(..))
}

/// The seed's digest, normalized to 32 bytes. Every call site learns from
/// the digest wrapper that the length already is 32, so the normalization
/// never changes a value; it keeps the field selectors total.
pub open spec fn seed_digest(s: Seq<char>) -> Seq<u8> {
    if sha256_of(s).len() == 32 {
        sha256_of(s)
    } else {
        Seq::new(32, |i: int| 0u8)
    }
}

pub open spec fn spec_sdk_version_of(b: u8) -> Seq<char> {
    let i = b % 5;
    if i == 0 { "1.0.20"@ }
    else if i == 1 { "1.0.22"@ }
    else if i == 2 { "1.0.24"@ }
    else if i == 3 { "1.0.25"@ }
    else { "1.0.27"@ }
}

pub open spec fn spec_kiro_version_of(b: u8) -> Seq<char> {
    let i = b % 6;
    if i == 0 { "0.3.0"@ }
    else if i == 1 { "0.4.0"@ }
    else if i == 2 { "0.5.0"@ }
    else if i == 3 { "0.6.0"@ }
    else if i == 4 { "0.7.0"@ }
    else { "0.8.0"@ }
}

pub open spec fn spec_node_version_of(b: u8) -> Seq<char> {
    let i = b % 4;
    if i == 0 { "18.20.4"@ }
    else if i == 1 { "20.18.0"@ }
    else if i == 2 { "22.11.0"@ }
    else { "22.21.1"@ }
}

pub open spec fn spec_os_type_of(b: u8) -> Seq<char> {
    let i = b % 3;
    if i == 0 { "darwin"@ }
    else if i == 1 { "win32"@ }
    else { "linux"@ }
}

pub open spec fn spec_os_version_of(os_b: u8, ver_b: u8) -> Seq<char> {
    let os = os_b % 3;
    if os == 0 {
        let i = ver_b % 5;
        if i == 0 { "24.0.0"@ }
        else if i == 1 { "24.1.0"@ }
        else if i == 2 { "24.2.0"@ }
        else if i == 3 { "24.4.0"@ }
        else { "24.6.0"@ }
    } else if os == 1 {
        let i = ver_b % 3;
        if i == 0 { "10.0.19045"@ }
        else if i == 1 { "10.0.22621"@ }
        else { "10.0.22631"@ }
    } else {
        let i = ver_b % 3;
        if i == 0 { "6.5.0"@ }
        else if i == 1 { "6.8.0"@ }
        else { "6.11.0"@ }
    }
}

pub open spec fn spec_accept_language_of(b: u8) -> Seq<char> {
    let i = b % 6;
    if i == 0 { "en-US,en;q=0.9"@ }
    else if i == 1 { "en-GB,en;q=0.9"@ }
    else if i == 2 { "zh-CN,zh;q=0.9,en;q=0.8"@ }
    else if i == 3 { "ja-JP,ja;q=0.9,en;q=0.8"@ }
    else if i == 4 { "de-DE,de;q=0.9,en;q=0.8"@ }
    else { "fr-FR,fr;q=0.9,en;q=0.8"@ }
}

pub open spec fn spec_screen_resolution_of(b: u8) -> Seq<char> {
    let i = b % 6;
    if i == 0 { "1920x1080"@ }
    else if i == 1 { "2560x1440"@ }
    else if i == 2 { "3840x2160"@ }
    else if i == 3 { "1440x900"@ }
    else if i == 4 { "2560x1600"@ }
    else { "3024x1964"@ }
}

pub open spec fn spec_color_depth_of(b: u8) -> u8 {
    let i = b % 3;
    if i == 0 { 24 }
    else if i == 1 { 30 }
    else { 32 }
}

pub open spec fn spec_sdk_version(s: Seq<char>) -> Seq<char> {
    spec_sdk_version_of(seed_digest(s)[0])
}

pub open spec fn spec_kiro_version(s: Seq<char>) -> Seq<char> {
    spec_kiro_version_of(seed_digest(s)[1])
}

pub open spec fn spec_node_version(s: Seq<char>) -> Seq<char> {
    spec_node_version_of(seed_digest(s)[2])
}

pub open spec fn spec_os_type(s: Seq<char>) -> Seq<char> {
    spec_os_type_of(seed_digest(s)[3])
}

pub open spec fn spec_accept_language(s: Seq<char>) -> Seq<char> {
    spec_accept_language_of(seed_digest(s)[4])
}

pub open spec fn spec_screen_resolution(s: Seq<char>) -> Seq<char> {
    spec_screen_resolution_of(seed_digest(s)[5])
}

pub open spec fn spec_color_depth(s: Seq<char>) -> u8 {
    spec_color_depth_of(seed_digest(s)[6])
}

pub open spec fn spec_os_version(s: Seq<char>) -> Seq<char> {
    spec_os_version_of(seed_digest(s)[3], seed_digest(s)[7])
}

/// Hardware concurrency is one digest byte mapped linearly into `[4, 32]`.
pub open spec fn spec_hardware_concurrency(s: Seq<char>) -> u8 {
    (4 + seed_digest(s)[8] % 29) as u8
}

/// The timezone offset is two digest bytes as a 16-bit value mapped into
/// `[-720, 720]` minutes.
pub open spec fn spec_timezone_offset(s: Seq<char>) -> i16 {
    (-720 + (seed_digest(s)[9] * 256 + seed_digest(s)[10]) % 1441) as i16
}

/// The synthetic IDE build hash mixes the selected IDE version with the
/// seed, so it is stable per seed but differs from `machine_id`.
pub open spec fn spec_kiro_hash(s: Seq<char>) -> Seq<char> {
    hex_of(seed_digest("kiro-"@ + spec_kiro_version(s) + "-"@ + s))
}

/// The synthetic machine id: 64 hex characters derived from the seed.
pub open spec fn spec_machine_id(s: Seq<char>) -> Seq<char> {
    hex_of(seed_digest("machine-"@ + s))
}

/// A synthetic client environment, fully determined by a seed string.
#[derive(Debug, Clone)]
pub struct Fingerprint {
    /// AWS SDK version.
    pub sdk_version: String,
    /// Operating system family: `darwin`, `win32` or `linux`.
    pub os_type: String,
    /// OS version, always drawn from the candidate list of `os_type`.
    pub os_version: String,
    /// Node.js runtime version.
    pub node_version: String,
    /// Kiro IDE version.
    pub kiro_version: String,
    /// Synthetic IDE build hash, 64 hex characters.
    pub kiro_hash: String,
    /// Preferred-language header value.
    pub accept_language: String,
    /// Screen resolution, e.g. `1920x1080`.
    pub screen_resolution: String,
    /// Color depth in bits.
    pub color_depth: u8,
    /// CPU core count, always in `[4, 32]`.
    pub hardware_concurrency: u8,
    /// Timezone offset in minutes, always in `[-720, 720]`.
    pub timezone_offset: i16,
    /// Synthetic machine id, 64 hex characters.
    pub machine_id: String,
}

/// Every field of `fp` equals the field the seed `s` determines.
pub open spec fn fingerprint_of_seed(fp: Fingerprint, s: Seq<char>) -> bool {
    &&& fp.sdk_version@ == spec_sdk_version(s)
    &&& fp.os_type@ == spec_os_type(s)
    &&& fp.os_version@ == spec_os_version(s)
    &&& fp.node_version@ == spec_node_version(s)
    &&& fp.kiro_version@ == spec_kiro_version(s)
    &&& fp.kiro_hash@ == spec_kiro_hash(s)
    &&& fp.accept_language@ == spec_accept_language(s)
    &&& fp.screen_resolution@ == spec_screen_resolution(s)
    &&& fp.color_depth == spec_color_depth(s)
    &&& fp.hardware_concurrency == spec_hardware_concurrency(s)
    &&& fp.timezone_offset == spec_timezone_offset(s)
    &&& fp.machine_id@ == spec_machine_id(s)
}

fn pick_sdk_version(b: u8) -> (r: &'static str)
    ensures
        r@ == spec_sdk_version_of(b),
{
    match b % 5 {
        0 => "1.0.20",
        1 => "1.0.22",
        2 => "1.0.24",
        3 => "1.0.25",
        _ => "1.0.27",
    }
}

fn pick_kiro_version(b: u8) -> (r: &'static str)
    ensures
        r@ == spec_kiro_version_of(b),
{
    match b % 6 {
        0 => "0.3.0",
        1 => "0.4.0",
        2 => "0.5.0",
        3 => "0.6.0",
        4 => "0.7.0",
        _ => "0.8.0",
    }
}

fn pick_node_version(b: u8) -> (r: &'static str)
    ensures
        r@ == spec_node_version_of(b),
{
    match b % 4 {
        0 => "18.20.4",
        1 => "20.18.0",
        2 => "22.11.0",
        _ => "22.21.1",
    }
}

fn pick_os_type(b: u8) -> (r: &'static str)
    ensures
        r@ == spec_os_type_of(b),
{
    match b % 3 {
        0 => "darwin",
        1 => "win32",
        _ => "linux",
    }
}

fn pick_os_version(os_b: u8, ver_b: u8) -> (r: &'static str)
    ensures
        r@ == spec_os_version_of(os_b, ver_b),
{
    match os_b % 3 {
        0 => match ver_b % 5 {
            0 => "24.0.0",
            1 => "24.1.0",
            2 => "24.2.0",
            3 => "24.4.0",
            _ => "24.6.0",
        },
        1 => match ver_b % 3 {
            0 => "10.0.19045",
            1 => "10.0.22621",
            _ => "10.0.22631",
        },
        _ => match ver_b % 3 {
            0 => "6.5.0",
            1 => "6.8.0",
            _ => "6.11.0",
        },
    }
}

fn pick_accept_language(b: u8) -> (r: &'static str)
    ensures
        r@ == spec_accept_language_of(b),
{
    match b % 6 {
        0 => "en-US,en;q=0.9",
        1 => "en-GB,en;q=0.9",
        2 => "zh-CN,zh;q=0.9,en;q=0.8",
        3 => "ja-JP,ja;q=0.9,en;q=0.8",
        4 => "de-DE,de;q=0.9,en;q=0.8",
        _ => "fr-FR,fr;q=0.9,en;q=0.8",
    }
}

fn pick_screen_resolution(b: u8) -> (r: &'static str)
    ensures
        r@ == spec_screen_resolution_of(b),
{
    match b % 6 {
        0 => "1920x1080",
        1 => "2560x1440",
        2 => "3840x2160",
        3 => "1440x900",
        4 => "2560x1600",
        _ => "3024x1964",
    }
}

fn pick_color_depth(b: u8) -> (r: u8)
    ensures
        r == spec_color_depth_of(b),
{
    match b % 3 {
        0 => 24,
        1 => 30,
        _ => 32,
    }
}

impl Fingerprint {
    /// Generates the fingerprint that `seed` determines. The same seed
    /// always yields the byte-identical fingerprint.
    pub fn generate_from_seed(seed: &str) -> (r: Fingerprint)
        ensures
            fingerprint_of_seed(r, seed@),
    {
        let digest = sha256_digest(seed);
        let sdk_version = pick_sdk_version(digest[0]);
        let kiro_version = pick_kiro_version(digest[1]);
        let node_version = pick_node_version(digest[2]);
        let os_type = pick_os_type(digest[3]);
        let accept_language = pick_accept_language(digest[4]);
        let screen_resolution = pick_screen_resolution(digest[5]);
        let color_depth = pick_color_depth(digest[6]);
        let os_version = pick_os_version(digest[3], digest[7]);
        let hardware_concurrency: u8 = 4 + digest[8] % 29;
        let hi: u16 = digest[9] as u16;
        let lo: u16 = digest[10] as u16;
        let tz_word: u16 = hi * 256 + lo;
        let timezone_offset: i16 = -720 + (tz_word % 1441) as i16;

        let mut hash_input = String::new();
        hash_input.append("kiro-");
        hash_input.append(kiro_version);
        hash_input.append("-");
        hash_input.append(seed);
        proof {
            assert(hash_input@ =~= "kiro-"@ + spec_kiro_version(seed@) + "-"@ + seed@);
        }
        let kiro_hash = hex_encode(&sha256_digest(hash_input.as_str()));

        let mut machine_input = String::new();
        machine_input.append("machine-");
        machine_input.append(seed);
        proof {
            assert(machine_input@ =~= "machine-"@ + seed@);
        }
        let machine_id = hex_encode(&sha256_digest(machine_input.as_str()));

        Fingerprint {
            sdk_version: sdk_version.to_owned(),
            os_type: os_type.to_owned(),
            os_version: os_version.to_owned(),
            node_version: node_version.to_owned(),
            kiro_version: kiro_version.to_owned(),
            kiro_hash,
            accept_language: accept_language.to_owned(),
            screen_resolution: screen_resolution.to_owned(),
            color_depth,
            hardware_concurrency,
            timezone_offset,
            machine_id,
        }
    }

    /// Generates a fingerprint from a fresh random seed, for callers that
    /// need no determinism. The result is still a well-formed fingerprint
    /// of some seed.
    pub fn generate_random() -> (r: Fingerprint)
        ensures
            exists|s: Seq<char>| fingerprint_of_seed(r, s),
    {
        let seed = random_seed();
        let r = Fingerprint::generate_from_seed(seed.as_str());
        proof {
            assert(fingerprint_of_seed(r, seed@));
        }
        r
    }

    /// The primary identity header:
    /// `aws-sdk-js/{sdk} ua/2.1 os/{os}#{osv} lang/js md/nodejs#{node}
    /// api/codewhispererstreaming#{sdk} m/E KiroIDE-{ide}-{machine_id}`.
    pub fn user_agent(&self) -> (r: String)
        ensures
            r@ == "aws-sdk-js/"@ + self.sdk_version@ + " ua/2.1 os/"@ + self.os_type@ + "#"@
                + self.os_version@ + " lang/js md/nodejs#"@ + self.node_version@
                + " api/codewhispererstreaming#"@ + self.sdk_version@ + " m/E KiroIDE-"@
                + self.kiro_version@ + "-"@ + self.machine_id@,
    {
        let mut s = String::new();
        s.append("aws-sdk-js/");
        s.append(self.sdk_version.as_str());
        s.append(" ua/2.1 os/");
        s.append(self.os_type.as_str());
        s.append("#");
        s.append(self.os_version.as_str());
        s.append(" lang/js md/nodejs#");
        s.append(self.node_version.as_str());
        s.append(" api/codewhispererstreaming#");
        s.append(self.sdk_version.as_str());
        s.append(" m/E KiroIDE-");
        s.append(self.kiro_version.as_str());
        s.append("-");
        s.append(self.machine_id.as_str());
        s
    }

    /// The secondary identity header:
    /// `aws-sdk-js/{sdk} KiroIDE-{ide}-{machine_id}`.
    pub fn x_amz_user_agent(&self) -> (r: String)
        ensures
            r@ == "aws-sdk-js/"@ + self.sdk_version@ + " KiroIDE-"@ + self.kiro_version@ + "-"@
                + self.machine_id@,
    {
        let mut s = String::new();
        s.append("aws-sdk-js/");
        s.append(self.sdk_version.as_str());
        s.append(" KiroIDE-");
        s.append(self.kiro_version.as_str());
        s.append("-");
        s.append(self.machine_id.as_str());
        s
    }

    /// The `{os_type}#{os_version}` fragment used inside `user_agent`.
    pub fn os_string(&self) -> (r: String)
        ensures
            r@ == self.os_type@ + "#"@ + self.os_version@,
    {
        let mut s = String::new();
        s.append(self.os_type.as_str());
        s.append("#");
        s.append(self.os_version.as_str());
        s
    }
}

/// Determinism: two fingerprints generated from the same seed agree on
/// every field.
pub proof fn lemma_fingerprint_deterministic(fp1: Fingerprint, fp2: Fingerprint, s: Seq<char>)
    requires
        fingerprint_of_seed(fp1, s),
        fingerprint_of_seed(fp2, s),
    ensures
        fp1.sdk_version@ == fp2.sdk_version@,
        fp1.os_type@ == fp2.os_type@,
        fp1.os_version@ == fp2.os_version@,
        fp1.node_version@ == fp2.node_version@,
        fp1.kiro_version@ == fp2.kiro_version@,
        fp1.kiro_hash@ == fp2.kiro_hash@,
        fp1.accept_language@ == fp2.accept_language@,
        fp1.screen_resolution@ == fp2.screen_resolution@,
        fp1.color_depth == fp2.color_depth,
        fp1.hardware_concurrency == fp2.hardware_concurrency,
        fp1.timezone_offset == fp2.timezone_offset,
        fp1.machine_id@ == fp2.machine_id@,
{
}

/// Range invariants: for every seed, the numeric fields stay in their
/// documented ranges and `machine_id` has exactly 64 hex characters.
pub proof fn lemma_fingerprint_ranges(s: Seq<char>)
    ensures
        4 <= spec_hardware_concurrency(s) <= 32,
        -720 <= spec_timezone_offset(s) <= 720,
        spec_machine_id(s).len() == 64,
        spec_kiro_hash(s).len() == 64,
        forall|i: int|
            0 <= i < 64 ==> ('0' <= #[trigger] spec_machine_id(s)[i] <= '9' || 'a'
                <= spec_machine_id(s)[i] <= 'f'),
{
    assert(seed_digest("machine-"@ + s).len() == 32);
    assert forall|i: int|
        0 <= i < 64 implies ('0' <= #[trigger] spec_machine_id(s)[i] <= '9' || 'a'
        <= spec_machine_id(s)[i] <= 'f') by {
        let b = seed_digest("machine-"@ + s)[i / 2];
        assert(b / 16 < 16);
        assert(b % 16 < 16);
    }
}

/// The selected OS version always belongs to the candidate list of the
/// selected OS type.
pub proof fn lemma_os_version_consistent(s: Seq<char>)
    ensures
        spec_os_type(s) == "darwin"@ || spec_os_type(s) == "win32"@ || spec_os_type(s)
            == "linux"@,
        spec_os_type(s) == "darwin"@ ==> spec_os_version(s) == "24.0.0"@ || spec_os_version(s)
            == "24.1.0"@ || spec_os_version(s) == "24.2.0"@ || spec_os_version(s) == "24.4.0"@
            || spec_os_version(s) == "24.6.0"@,
        spec_os_type(s) == "win32"@ ==> spec_os_version(s) == "10.0.19045"@ || spec_os_version(s)
            == "10.0.22621"@ || spec_os_version(s) == "10.0.22631"@,
        spec_os_type(s) == "linux"@ ==> spec_os_version(s) == "6.5.0"@ || spec_os_version(s)
            == "6.8.0"@ || spec_os_version(s) == "6.11.0"@,
{
    let b = seed_digest(s)[3];
    reveal_strlit("darwin");
    reveal_strlit("win32");
    reveal_strlit("linux");
    assert("darwin"@.len() == 6);
    assert("win32"@[0] == 'w');
    assert("linux"@[0] == 'l');
    if b % 3 == 0 {
        assert(spec_os_type(s) == "darwin"@);
        assert(spec_os_type(s) != "win32"@);
        assert(spec_os_type(s) != "linux"@);
    } else if b % 3 == 1 {
        assert(spec_os_type(s) == "win32"@);
        assert(spec_os_type(s) != "darwin"@);
        assert(spec_os_type(s) != "linux"@);
    } else {
        assert(spec_os_type(s) == "linux"@);
        assert(spec_os_type(s) != "darwin"@);
        assert(spec_os_type(s) != "win32"@);
    }
}

} // verus!
