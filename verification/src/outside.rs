//! The calls into other crates, with what is relied on of each.
use base64::Engine;
use vstd::prelude::*;

verus! {

/// The standard base64 text of bytes, with padding.
pub uninterp spec fn base64_text(bytes: Seq<u8>) -> Seq<char>;

/// What standard base64 decoding makes of a text: the bytes, or the words of the error.
pub uninterp spec fn base64_decoded(text: Seq<char>) -> Result<Seq<u8>, Seq<char>>;

/// The SHA-256 digest of bytes.
pub uninterp spec fn sha256(bytes: Seq<u8>) -> Seq<u8>;

/// The unified diff of the lines of two texts, with three lines of context, under a
/// header of two names.
pub uninterp spec fn unified_diff(
    before: Seq<char>,
    after: Seq<char>,
    old_name: Seq<char>,
    new_name: Seq<char>,
) -> Seq<char>;

/// The contents of a decoding result.
pub open spec fn decoding(result: Result<Vec<u8>, String>) -> Result<Seq<u8>, Seq<char>> {
    match result {
        Ok(bytes) => Ok(bytes@),
        Err(message) => Err(message@),
    }
}

/// Calls `encode` of base64's `general_purpose::STANDARD` engine. The text depends on the
/// bytes alone, and no other bytes have the same text.
#[verifier::external_body]
pub(crate) fn encode_base64(bytes: &[u8]) -> (text: String)
    ensures
        text@ == base64_text(bytes@),
        forall|other: Seq<u8>| #[trigger] base64_text(other) == text@ ==> other == bytes@,
{
    base64::engine::general_purpose::STANDARD.encode(bytes)
}

/// Calls `decode` of base64's `general_purpose::STANDARD` engine and takes the words of its
/// error. The outcome depends on the text alone, and the text of any bytes gives those
/// bytes back. Which other texts are refused, and with what words, is left to the name.
#[verifier::external_body]
pub(crate) fn decode_base64(text: &str) -> (decoded: Result<Vec<u8>, String>)
    ensures
        decoding(decoded) == base64_decoded(text@),
        forall|bytes: Seq<u8>| #[trigger] base64_text(bytes) == text@ ==> decoding(decoded) is Ok,
        forall|bytes: Seq<u8>| #[trigger] base64_text(bytes) == text@ ==> decoding(decoded)->Ok_0 == bytes,
{
    base64::engine::general_purpose::STANDARD.decode(text).map_err(|error| error.to_string())
}

/// Calls `Sha256::digest` of sha2: 32 bytes that depend on the content alone.
#[verifier::external_body]
pub(crate) fn sha256_digest(bytes: &[u8]) -> (digest: Vec<u8>)
    ensures
        digest@ == sha256(bytes@),
        digest@.len() == 32,
{
    <sha2::Sha256 as sha2::Digest>::digest(bytes).to_vec()
}

/// Calls similar's `TextDiff::from_lines` and writes its `unified_diff` with a header. The
/// text depends on the two texts and the two names alone; what it says is left to the name.
#[verifier::external_body]
pub(crate) fn unified_diff_text(before: &str, after: &str, old_name: &str, new_name: &str) -> (text:
    String)
    ensures
        text@ == unified_diff(before@, after@, old_name@, new_name@),
{
    similar::TextDiff::from_lines(before, after).unified_diff().header(old_name, new_name).to_string()
}

/// libc's `WIFEXITED`: the low seven bits of the wait status are zero.
pub assume_specification[ libc::WIFEXITED ](status: libc::c_int) -> (yes: bool)
    ensures
        yes == (status & 0x7f == 0),
;

/// libc's `WEXITSTATUS`: the second byte of the wait status.
pub assume_specification[ libc::WEXITSTATUS ](status: libc::c_int) -> (code: libc::c_int)
    ensures
        code == (status >> 8) & 0xff,
;

/// libc's `WIFSIGNALED`: the low seven bits of the wait status are neither all zero nor all
/// one.
pub assume_specification[ libc::WIFSIGNALED ](status: libc::c_int) -> (yes: bool)
    ensures
        yes == (1 <= status & 0x7f && status & 0x7f <= 0x7e),
;

/// libc's `WTERMSIG`: the low seven bits of the wait status.
pub assume_specification[ libc::WTERMSIG ](status: libc::c_int) -> (signal: libc::c_int)
    ensures
        signal == status & 0x7f,
;

/// libc's `O_WRONLY`, on the architectures that the tracker runs on.
#[verifier::external_body]
pub(crate) fn o_wronly() -> (flag: i32)
    ensures
        flag == 1,
{
    libc::O_WRONLY
}

/// libc's `O_RDWR`, on the architectures that the tracker runs on.
#[verifier::external_body]
pub(crate) fn o_rdwr() -> (flag: i32)
    ensures
        flag == 2,
{
    libc::O_RDWR
}

/// libc's `O_CREAT`, on the architectures that the tracker runs on.
#[verifier::external_body]
pub(crate) fn o_creat() -> (flag: i32)
    ensures
        flag == 0o100,
{
    libc::O_CREAT
}

/// libc's `O_TRUNC`, on the architectures that the tracker runs on.
#[verifier::external_body]
pub(crate) fn o_trunc() -> (flag: i32)
    ensures
        flag == 0o1000,
{
    libc::O_TRUNC
}

/// libc's `AT_SYMLINK_NOFOLLOW`.
#[verifier::external_body]
pub(crate) fn at_symlink_nofollow() -> (flag: i32)
    ensures
        flag == 0x100,
{
    libc::AT_SYMLINK_NOFOLLOW
}

/// libc's `SIGTERM`.
#[verifier::external_body]
pub(crate) fn sigterm() -> (signal: i32)
    ensures
        signal == 15,
{
    libc::SIGTERM
}

/// libc's `SIGKILL`.
#[verifier::external_body]
pub(crate) fn sigkill() -> (signal: i32)
    ensures
        signal == 9,
{
    libc::SIGKILL
}

/// libc's `ENOENT`.
#[verifier::external_body]
pub(crate) fn enoent() -> (code: i32)
    ensures
        code == 2,
{
    libc::ENOENT
}

/// libc's `ESRCH`.
#[verifier::external_body]
pub(crate) fn esrch() -> (code: i32)
    ensures
        code == 3,
{
    libc::ESRCH
}

/// libc's `EINTR`.
#[verifier::external_body]
pub(crate) fn eintr() -> (code: i32)
    ensures
        code == 4,
{
    libc::EINTR
}

/// libc's `ECHILD`.
#[verifier::external_body]
pub(crate) fn echild() -> (code: i32)
    ensures
        code == 10,
{
    libc::ECHILD
}

} // verus!
