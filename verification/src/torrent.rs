//! Core types for the contents of a `.torrent` file, and the extractor
//! that projects a decoded [`Bencoding`] tree into a typed [`Torrent`]
//! record.
//!
//! The extractor is specified by [`spec_torrent`], a spec-level projection
//! over the tree model, and `Torrent::try_from` is proved to return exactly
//! what it describes, both on success and on failure.

use crate::bencoding::{
    entry_models_of, key_index, lemma_entry_models_of, lemma_key_index, lemma_models_of,
    models_of, Bencoding, BencodingSpec,
};
use vstd::prelude::*;
use vstd::string::StrSliceExecFns;
use vstd::utf8::{decode_utf8, valid_utf8};

verus! {

/// The dictionary keys that a torrent file is read through.
///
/// Each key stands for the exact byte string that the bencoded dictionary
/// holds; [`TorrentKey::bytes`] gives that byte string.
#[derive(Clone, Copy, Debug, PartialEq, Eq, Structural)]
pub enum TorrentKey {
    /// `announce`: the single tracker address.
    Announce,
    /// `announce-list`: tracker tiers, each a list of addresses.
    AnnounceList,
    /// `creation date`: seconds since the Unix epoch.
    CreationDate,
    /// `comment`: a free-form message.
    Comment,
    /// `created by`: the program that made the file.
    CreatedBy,
    /// `info`: the dictionary holding piece layout and files.
    Info,
    /// `private`: whether the torrent forbids peer discovery off-tracker.
    Private,
    /// `piece length`: bytes in each piece but possibly the last.
    PieceLength,
    /// `pieces`: the concatenated 20-byte piece hashes.
    Pieces,
    /// `files`: the file entries of a multi-file torrent.
    Files,
    /// `name`: the file name, or the shared directory of a multi-file
    /// torrent.
    Name,
    /// `length`: a byte count.
    Length,
    /// `path`: the path of one file under the shared directory.
    Path,
}

impl TorrentKey {
    /// The exact bytes of this key in a bencoded dictionary.
    pub open spec fn bytes(self) -> Seq<u8> {
        match self {
            TorrentKey::Announce => seq![97u8, 110u8, 110u8, 111u8, 117u8, 110u8, 99u8, 101u8],
            TorrentKey::AnnounceList => seq![97u8, 110u8, 110u8, 111u8, 117u8, 110u8, 99u8, 101u8, 45u8, 108u8, 105u8, 115u8, 116u8],
            TorrentKey::CreationDate => seq![99u8, 114u8, 101u8, 97u8, 116u8, 105u8, 111u8, 110u8, 32u8, 100u8, 97u8, 116u8, 101u8],
            TorrentKey::Comment => seq![99u8, 111u8, 109u8, 109u8, 101u8, 110u8, 116u8],
            TorrentKey::CreatedBy => seq![99u8, 114u8, 101u8, 97u8, 116u8, 101u8, 100u8, 32u8, 98u8, 121u8],
            TorrentKey::Info => seq![105u8, 110u8, 102u8, 111u8],
            TorrentKey::Private => seq![112u8, 114u8, 105u8, 118u8, 97u8, 116u8, 101u8],
            TorrentKey::PieceLength => seq![112u8, 105u8, 101u8, 99u8, 101u8, 32u8, 108u8, 101u8, 110u8, 103u8, 116u8, 104u8],
            TorrentKey::Pieces => seq![112u8, 105u8, 101u8, 99u8, 101u8, 115u8],
            TorrentKey::Files => seq![102u8, 105u8, 108u8, 101u8, 115u8],
            TorrentKey::Name => seq![110u8, 97u8, 109u8, 101u8],
            TorrentKey::Length => seq![108u8, 101u8, 110u8, 103u8, 116u8, 104u8],
            TorrentKey::Path => seq![112u8, 97u8, 116u8, 104u8],
        }
    }

    /// The bytes of this key, as a vector.
    pub fn to_bytes(self) -> (r: Vec<u8>)
        ensures
            r@ == self.bytes(),
    {
        let v: Vec<u8> = match self {
            TorrentKey::Announce => vec![97u8, 110u8, 110u8, 111u8, 117u8, 110u8, 99u8, 101u8],
            TorrentKey::AnnounceList => vec![97u8, 110u8, 110u8, 111u8, 117u8, 110u8, 99u8, 101u8, 45u8, 108u8, 105u8, 115u8, 116u8],
            TorrentKey::CreationDate => vec![99u8, 114u8, 101u8, 97u8, 116u8, 105u8, 111u8, 110u8, 32u8, 100u8, 97u8, 116u8, 101u8],
            TorrentKey::Comment => vec![99u8, 111u8, 109u8, 109u8, 101u8, 110u8, 116u8],
            TorrentKey::CreatedBy => vec![99u8, 114u8, 101u8, 97u8, 116u8, 101u8, 100u8, 32u8, 98u8, 121u8],
            TorrentKey::Info => vec![105u8, 110u8, 102u8, 111u8],
            TorrentKey::Private => vec![112u8, 114u8, 105u8, 118u8, 97u8, 116u8, 101u8],
            TorrentKey::PieceLength => vec![112u8, 105u8, 101u8, 99u8, 101u8, 32u8, 108u8, 101u8, 110u8, 103u8, 116u8, 104u8],
            TorrentKey::Pieces => vec![112u8, 105u8, 101u8, 99u8, 101u8, 115u8],
            TorrentKey::Files => vec![102u8, 105u8, 108u8, 101u8, 115u8],
            TorrentKey::Name => vec![110u8, 97u8, 109u8, 101u8],
            TorrentKey::Length => vec![108u8, 101u8, 110u8, 103u8, 116u8, 104u8],
            TorrentKey::Path => vec![112u8, 97u8, 116u8, 104u8],
        };
        proof {
            assert(v@ =~= self.bytes());
        }
        v
    }
}

/// An error occurring when extracting a value from bencoding.
#[derive(Clone, Copy, Debug, PartialEq, Eq, Structural)]
pub enum TryFromBencodingError {
    /// We tried to get an int, but the bencoding wasn't an integer.
    ExpectedInt,
    /// We tried to get a byte string, but the bencoding wasn't one.
    ExpectedByteString,
    /// We tried to get a list, but the bencoding wasn't a list.
    ExpectedList,
    /// We tried to get a dictionary, but the bencoding wasn't a dictionary.
    ExpectedDict,
    /// An integer could not be read as a Unix timestamp.
    ///
    /// Holds the integer that was out of range: a timestamp must lie at or
    /// after the epoch, so every negative integer is rejected.
    ExceedsSystemTime(i64),
    /// A byte string had to be text but is not valid UTF-8.
    NotUTF8,
    /// A required key was not present in a dictionary.
    MissingKey(TorrentKey),
}

/// An error that can occur when reading a torrent out of a bencoded tree.
#[derive(Clone, Copy, Debug, PartialEq, Eq, Structural)]
pub enum ParseTorrentError {
    /// The bencoding didn't match the shape of a torrent file.
    Bencoding(TryFromBencodingError),
    /// The length of the concatenated piece hashes was not a multiple of 20.
    BadHashLength(usize),
}

/// Represents the location of some tracker.
///
/// Trackers are how a client bootstraps into an existing swarm. Addresses
/// are kept as text, because they often require DNS resolution.
#[derive(Clone, Debug, PartialEq, Eq)]
pub enum TrackerAddr {
    /// An address of a tracker that speaks the UDP protocol, with the
    /// `udp://` prefix removed.
    UDP(String),
    /// An HTTP or HTTPS tracker, scheme included.
    HTTP(String),
    /// A tracker whose protocol is not recognized, kept unchanged.
    Unknown(String),
}

/// The model of a [`TrackerAddr`]: the same shape over character
/// sequences.
#[verifier::ext_equal]
pub enum TrackerAddrSpec {
    UDP(Seq<char>),
    HTTP(Seq<char>),
    Unknown(Seq<char>),
}

impl View for TrackerAddr {
    type V = TrackerAddrSpec;

    open spec fn view(&self) -> TrackerAddrSpec {
        match self {
            TrackerAddr::UDP(a) => TrackerAddrSpec::UDP(a@),
            TrackerAddr::HTTP(a) => TrackerAddrSpec::HTTP(a@),
            TrackerAddr::Unknown(a) => TrackerAddrSpec::Unknown(a@),
        }
    }
}

/// Represents the SHA-1 hash of a given piece, always exactly 20 bytes.
#[derive(Clone, Debug, PartialEq, Eq)]
pub struct PieceHash(pub [u8; 20]);

impl View for PieceHash {
    type V = Seq<u8>;

    open spec fn view(&self) -> Seq<u8> {
        self.0@
    }
}

/// The info about a specific file in a torrent: its relative path and its
/// length in bytes.
#[derive(Clone, Debug, PartialEq, Eq)]
pub struct FileInfo {
    /// The relative path of the file. In a multi-file torrent this is the
    /// shared directory, a `/` separator, and the entry's own path.
    pub name: String,
    /// How many bytes the file contains.
    pub length: usize,
}

/// The model of a [`FileInfo`].
#[verifier::ext_equal]
pub struct FileInfoSpec {
    pub name: Seq<char>,
    pub length: usize,
}

impl View for FileInfo {
    type V = FileInfoSpec;

    open spec fn view(&self) -> FileInfoSpec {
        FileInfoSpec { name: self.name@, length: self.length }
    }
}

/// Represents the information contained in a `.torrent` file.
#[derive(Debug)]
pub struct Torrent {
    /// Trackers to connect to, each with a priority tier: lower tier
    /// numbers are tried first, trackers of one tier in any order.
    pub trackers: Vec<(u8, TrackerAddr)>,
    /// The creation time, in non-negative seconds since the Unix epoch, if
    /// the file carries one.
    pub creation: Option<i64>,
    /// A message about this torrent, if present.
    pub comment: Option<String>,
    /// The program that created this torrent, if present.
    pub created_by: Option<String>,
    /// Whether this torrent is private: a private torrent's peers may be
    /// found only through its own trackers.
    pub private: bool,
    /// How many bytes are in each piece (except possibly the last one).
    pub piece_length: usize,
    /// One 20-byte hash for each piece, in piece order.
    pub piece_hashes: Vec<PieceHash>,
    /// The files of this torrent, in order; a single-file torrent has
    /// exactly one entry.
    pub files: Vec<FileInfo>,
}

/// The model of a [`Torrent`].
#[verifier::ext_equal]
pub struct TorrentSpec {
    pub trackers: Seq<(u8, TrackerAddrSpec)>,
    pub creation: Option<i64>,
    pub comment: Option<Seq<char>>,
    pub created_by: Option<Seq<char>>,
    pub private: bool,
    pub piece_length: usize,
    pub piece_hashes: Seq<Seq<u8>>,
    pub files: Seq<FileInfoSpec>,
}

/// The model of a tracker vector, elementwise.
pub open spec fn trackers_models(s: Seq<(u8, TrackerAddr)>) -> Seq<(u8, TrackerAddrSpec)> {
    Seq::new(s.len(), |i: int| (s[i].0, s[i].1@))
}

/// The model of a piece-hash vector, elementwise.
pub open spec fn hashes_models(s: Seq<PieceHash>) -> Seq<Seq<u8>> {
    Seq::new(s.len(), |i: int| s[i]@)
}

/// The model of a file-info vector, elementwise.
pub open spec fn files_models(s: Seq<FileInfo>) -> Seq<FileInfoSpec> {
    Seq::new(s.len(), |i: int| s[i]@)
}

impl View for Torrent {
    type V = TorrentSpec;

    open spec fn view(&self) -> TorrentSpec {
        TorrentSpec {
            trackers: trackers_models(self.trackers@),
            creation: self.creation,
            comment: match self.comment {
                Some(c) => Some(c@),
                None => None,
            },
            created_by: match self.created_by {
                Some(c) => Some(c@),
                None => None,
            },
            private: self.private,
            piece_length: self.piece_length,
            piece_hashes: hashes_models(self.piece_hashes@),
            files: files_models(self.files@),
        }
    }
}

/// The entries of a dictionary tree, or the type-mismatch error.
pub open spec fn spec_extract_dict(v: BencodingSpec) -> Result<
    Seq<(Seq<u8>, BencodingSpec)>,
    TryFromBencodingError,
> {
    match v {
        BencodingSpec::Dict(entries) => Ok(entries),
        _ => Err(TryFromBencodingError::ExpectedDict),
    }
}

/// The value under `key` in a dictionary's entries: the first entry holding
/// the key (the decoder keeps keys unique).
pub open spec fn spec_lookup(entries: Seq<(Seq<u8>, BencodingSpec)>, key: Seq<u8>) -> Option<
    BencodingSpec,
> {
    if key_index(entries, key) < entries.len() {
        Some(entries[key_index(entries, key)].1)
    } else {
        None
    }
}

/// The value under a required key: the tree must be a dictionary and hold
/// the key, else exactly the error named here.
pub open spec fn spec_extract_key(v: BencodingSpec, key: TorrentKey) -> Result<
    BencodingSpec,
    TryFromBencodingError,
> {
    match v {
        BencodingSpec::Dict(entries) => match spec_lookup(entries, key.bytes()) {
            Some(inner) => Ok(inner),
            None => Err(TryFromBencodingError::MissingKey(key)),
        },
        _ => Err(TryFromBencodingError::ExpectedDict),
    }
}

/// The value under an optional key: absent when the tree is not a
/// dictionary or does not hold the key.
pub open spec fn spec_opt_key(v: BencodingSpec, key: TorrentKey) -> Option<BencodingSpec> {
    match v {
        BencodingSpec::Dict(entries) => spec_lookup(entries, key.bytes()),
        _ => None,
    }
}

/// An integer tree's value, or the type-mismatch error.
pub open spec fn spec_extract_int(v: BencodingSpec) -> Result<i64, TryFromBencodingError> {
    match v {
        BencodingSpec::Int(i) => Ok(i),
        _ => Err(TryFromBencodingError::ExpectedInt),
    }
}

/// A byte-string tree's bytes, or the type-mismatch error.
pub open spec fn spec_extract_bytes(v: BencodingSpec) -> Result<Seq<u8>, TryFromBencodingError> {
    match v {
        BencodingSpec::ByteString(bytes) => Ok(bytes),
        _ => Err(TryFromBencodingError::ExpectedByteString),
    }
}

/// A list tree's elements, or the type-mismatch error.
pub open spec fn spec_extract_list(v: BencodingSpec) -> Result<
    Seq<BencodingSpec>,
    TryFromBencodingError,
> {
    match v {
        BencodingSpec::List(items) => Ok(items),
        _ => Err(TryFromBencodingError::ExpectedList),
    }
}

/// A byte-string tree decoded as UTF-8 text: bytes that are not valid
/// UTF-8 give [`TryFromBencodingError::NotUTF8`].
pub open spec fn spec_extract_string(v: BencodingSpec) -> Result<Seq<char>, TryFromBencodingError> {
    match spec_extract_bytes(v) {
        Err(e) => Err(e),
        Ok(bytes) => if valid_utf8(bytes) {
            Ok(decode_utf8(bytes))
        } else {
            Err(TryFromBencodingError::NotUTF8)
        },
    }
}

/// An integer tree read as a Unix timestamp: non-negative seconds since
/// the epoch. A negative integer lies before the epoch and cannot be a
/// timestamp: it gives [`TryFromBencodingError::ExceedsSystemTime`].
pub open spec fn spec_extract_system_time(v: BencodingSpec) -> Result<i64, TryFromBencodingError> {
    match spec_extract_int(v) {
        Err(e) => Err(e),
        Ok(secs) => if secs < 0 {
            Err(TryFromBencodingError::ExceedsSystemTime(secs))
        } else {
            Ok(secs)
        },
    }
}

/// The characters `udp://`.
pub open spec fn udp_prefix() -> Seq<char> {
    seq!['u', 'd', 'p', ':', '/', '/']
}

/// The characters `http://`.
pub open spec fn http_prefix() -> Seq<char> {
    seq!['h', 't', 't', 'p', ':', '/', '/']
}

/// The characters `https://`.
pub open spec fn https_prefix() -> Seq<char> {
    seq!['h', 't', 't', 'p', 's', ':', '/', '/']
}

/// Whether `pat` stands in `text` at position `i`.
pub open spec fn matches_at(text: Seq<char>, pat: Seq<char>, i: int) -> bool {
    0 <= i && i + pat.len() <= text.len() && text.subrange(i, i + pat.len()) == pat
}

/// The first position at or after `i` where `pat` stands in `text`.
pub open spec fn find_at(text: Seq<char>, pat: Seq<char>, i: int) -> Option<int>
    decreases text.len() - i,
    via find_at_decreases
{
    if i < 0 || i + pat.len() > text.len() {
        None
    } else if text.subrange(i, i + pat.len()) == pat {
        Some(i)
    } else {
        find_at(text, pat, i + 1)
    }
}

#[via_fn]
proof fn find_at_decreases(text: Seq<char>, pat: Seq<char>, i: int) {
    if pat.len() == 0 && 0 <= i <= text.len() {
        assert(text.subrange(i, i + pat.len()) =~= pat);
    }
}

/// How a tracker address is classified.
///
/// Text holding `udp://` anywhere names a UDP tracker: the address is
/// everything after the first occurrence. Otherwise text starting with
/// `http://` or `https://` names an HTTP tracker, kept whole, scheme
/// included. All other text is kept whole and unrecognized.
pub open spec fn spec_classify(text: Seq<char>) -> TrackerAddrSpec {
    match find_at(text, udp_prefix(), 0) {
        Some(i) => TrackerAddrSpec::UDP(text.subrange(i + udp_prefix().len(), text.len() as int)),
        None => if matches_at(text, http_prefix(), 0) || matches_at(text, https_prefix(), 0) {
            TrackerAddrSpec::HTTP(text)
        } else {
            TrackerAddrSpec::Unknown(text)
        },
    }
}

/// A tracker address read from a tree: a byte string holding UTF-8 text,
/// classified by [`spec_classify`].
pub open spec fn spec_tracker_addr(v: BencodingSpec) -> Result<
    TrackerAddrSpec,
    TryFromBencodingError,
> {
    match spec_extract_string(v) {
        Err(e) => Err(e),
        Ok(text) => Ok(spec_classify(text)),
    }
}

/// The trackers of one tier, in order, each at priority `prio`, appended
/// to `acc`.
pub open spec fn spec_collect_tier(
    tier: Seq<BencodingSpec>,
    j: int,
    prio: u8,
    acc: Seq<(u8, TrackerAddrSpec)>,
) -> Result<Seq<(u8, TrackerAddrSpec)>, ParseTorrentError>
    decreases tier.len() - j,
{
    if j < 0 || j >= tier.len() {
        Ok(acc)
    } else {
        match spec_tracker_addr(tier[j]) {
            Err(e) => Err(ParseTorrentError::Bencoding(e)),
            Ok(t) => spec_collect_tier(tier, j + 1, prio, acc.push((prio, t))),
        }
    }
}

/// The trackers of all tiers from `idx` on, in order; the tier's position
/// becomes the priority, truncated to `u8`.
pub open spec fn spec_collect_tiers(
    tiers: Seq<BencodingSpec>,
    idx: int,
    acc: Seq<(u8, TrackerAddrSpec)>,
) -> Result<Seq<(u8, TrackerAddrSpec)>, ParseTorrentError>
    decreases tiers.len() - idx,
{
    if idx < 0 || idx >= tiers.len() {
        Ok(acc)
    } else {
        match spec_extract_list(tiers[idx]) {
            Err(e) => Err(ParseTorrentError::Bencoding(e)),
            Ok(tier) => match spec_collect_tier(tier, 0, idx as u8, acc) {
                Err(e) => Err(e),
                Ok(acc2) => spec_collect_tiers(tiers, idx + 1, acc2),
            },
        }
    }
}

/// The trackers of a torrent: the tiers under `announce-list` when that
/// key is present, else the single `announce` address at priority 0.
pub open spec fn spec_trackers(v: BencodingSpec) -> Result<
    Seq<(u8, TrackerAddrSpec)>,
    ParseTorrentError,
> {
    match spec_opt_key(v, TorrentKey::AnnounceList) {
        None => match spec_extract_key(v, TorrentKey::Announce) {
            Err(e) => Err(ParseTorrentError::Bencoding(e)),
            Ok(a) => match spec_tracker_addr(a) {
                Err(e) => Err(ParseTorrentError::Bencoding(e)),
                Ok(t) => Ok(seq![(0u8, t)]),
            },
        },
        Some(inner) => match spec_extract_list(inner) {
            Err(e) => Err(ParseTorrentError::Bencoding(e)),
            Ok(tiers) => spec_collect_tiers(tiers, 0, Seq::empty()),
        },
    }
}

/// An optional field holding a timestamp.
pub open spec fn spec_opt_system_time(v: BencodingSpec, key: TorrentKey) -> Result<
    Option<i64>,
    TryFromBencodingError,
> {
    match spec_opt_key(v, key) {
        None => Ok(None),
        Some(inner) => match spec_extract_system_time(inner) {
            Err(e) => Err(e),
            Ok(secs) => Ok(Some(secs)),
        },
    }
}

/// An optional field holding UTF-8 text.
pub open spec fn spec_opt_string(v: BencodingSpec, key: TorrentKey) -> Result<
    Option<Seq<char>>,
    TryFromBencodingError,
> {
    match spec_opt_key(v, key) {
        None => Ok(None),
        Some(inner) => match spec_extract_string(inner) {
            Err(e) => Err(e),
            Ok(text) => Ok(Some(text)),
        },
    }
}

/// The `private` flag: true exactly when the optional integer under
/// `private` equals 1; false when the key is absent.
pub open spec fn spec_private(info: BencodingSpec) -> Result<bool, TryFromBencodingError> {
    match spec_opt_key(info, TorrentKey::Private) {
        None => Ok(false),
        Some(inner) => match spec_extract_int(inner) {
            Err(e) => Err(e),
            Ok(i) => Ok(i == 1),
        },
    }
}

/// The piece hashes of the `pieces` byte string: consecutive 20-byte
/// chunks, in order. A byte count that is not a multiple of 20 cannot be a
/// concatenation of hashes and gives [`ParseTorrentError::BadHashLength`].
pub open spec fn spec_piece_hashes(info: BencodingSpec) -> Result<Seq<Seq<u8>>, ParseTorrentError> {
    match spec_extract_key(info, TorrentKey::Pieces) {
        Err(e) => Err(ParseTorrentError::Bencoding(e)),
        Ok(inner) => match spec_extract_bytes(inner) {
            Err(e) => Err(ParseTorrentError::Bencoding(e)),
            Ok(bytes) => if bytes.len() % 20 != 0 {
                Err(ParseTorrentError::BadHashLength(bytes.len() as usize))
            } else {
                Ok(Seq::new(bytes.len() / 20, |i: int| bytes.subrange(20 * i, 20 * i + 20)))
            },
        },
    }
}

/// One relative path: the shared directory, `/`, and the entry's path.
pub open spec fn spec_join_path(dir: Seq<char>, path: Seq<char>) -> Seq<char> {
    dir + seq!['/'] + path
}

/// The file entries of a multi-file torrent from `j` on: each must hold a
/// `length` integer and a `path` text, placed under the shared directory.
pub open spec fn spec_collect_files(
    list: Seq<BencodingSpec>,
    j: int,
    dir: Seq<char>,
    acc: Seq<FileInfoSpec>,
) -> Result<Seq<FileInfoSpec>, ParseTorrentError>
    decreases list.len() - j,
{
    if j < 0 || j >= list.len() {
        Ok(acc)
    } else {
        match spec_extract_key(list[j], TorrentKey::Length) {
            Err(e) => Err(ParseTorrentError::Bencoding(e)),
            Ok(len_tree) => match spec_extract_int(len_tree) {
                Err(e) => Err(ParseTorrentError::Bencoding(e)),
                Ok(length) => match spec_extract_key(list[j], TorrentKey::Path) {
                    Err(e) => Err(ParseTorrentError::Bencoding(e)),
                    Ok(path_tree) => match spec_extract_string(path_tree) {
                        Err(e) => Err(ParseTorrentError::Bencoding(e)),
                        Ok(path) => spec_collect_files(
                            list,
                            j + 1,
                            dir,
                            acc.push(
                                FileInfoSpec {
                                    name: spec_join_path(dir, path),
                                    length: length as usize,
                                },
                            ),
                        ),
                    },
                },
            },
        }
    }
}

/// The files of a torrent. Without a `files` key the torrent holds one
/// file, named by `name` with its `length`. With one, `name` is the shared
/// directory and each entry of `files` is placed under it.
pub open spec fn spec_files(info: BencodingSpec) -> Result<Seq<FileInfoSpec>, ParseTorrentError> {
    match spec_opt_key(info, TorrentKey::Files) {
        None => match spec_extract_key(info, TorrentKey::Name) {
            Err(e) => Err(ParseTorrentError::Bencoding(e)),
            Ok(name_tree) => match spec_extract_string(name_tree) {
                Err(e) => Err(ParseTorrentError::Bencoding(e)),
                Ok(name) => match spec_extract_key(info, TorrentKey::Length) {
                    Err(e) => Err(ParseTorrentError::Bencoding(e)),
                    Ok(len_tree) => match spec_extract_int(len_tree) {
                        Err(e) => Err(ParseTorrentError::Bencoding(e)),
                        Ok(length) => Ok(
                            seq![FileInfoSpec { name: name, length: length as usize }],
                        ),
                    },
                },
            },
        },
        Some(inner) => match spec_extract_key(info, TorrentKey::Name) {
            Err(e) => Err(ParseTorrentError::Bencoding(e)),
            Ok(name_tree) => match spec_extract_string(name_tree) {
                Err(e) => Err(ParseTorrentError::Bencoding(e)),
                Ok(dir) => match spec_extract_list(inner) {
                    Err(e) => Err(ParseTorrentError::Bencoding(e)),
                    Ok(list) => spec_collect_files(list, 0, dir, Seq::empty()),
                },
            },
        },
    }
}

/// What reading a torrent out of a tree returns: the [`TorrentSpec`] whose
/// fields the helpers above name, or the first error in their order.
pub open spec fn spec_torrent(v: BencodingSpec) -> Result<TorrentSpec, ParseTorrentError> {
    match spec_trackers(v) {
        Err(e) => Err(e),
        Ok(trackers) => match spec_opt_system_time(v, TorrentKey::CreationDate) {
            Err(e) => Err(ParseTorrentError::Bencoding(e)),
            Ok(creation) => match spec_opt_string(v, TorrentKey::Comment) {
                Err(e) => Err(ParseTorrentError::Bencoding(e)),
                Ok(comment) => match spec_opt_string(v, TorrentKey::CreatedBy) {
                    Err(e) => Err(ParseTorrentError::Bencoding(e)),
                    Ok(created_by) => match spec_extract_key(v, TorrentKey::Info) {
                        Err(e) => Err(ParseTorrentError::Bencoding(e)),
                        Ok(info) => match spec_private(info) {
                            Err(e) => Err(ParseTorrentError::Bencoding(e)),
                            Ok(private) => match spec_extract_key(info, TorrentKey::PieceLength) {
                                Err(e) => Err(ParseTorrentError::Bencoding(e)),
                                Ok(pl_tree) => match spec_extract_int(pl_tree) {
                                    Err(e) => Err(ParseTorrentError::Bencoding(e)),
                                    Ok(piece_length) => match spec_piece_hashes(info) {
                                        Err(e) => Err(e),
                                        Ok(piece_hashes) => match spec_files(info) {
                                            Err(e) => Err(e),
                                            Ok(files) => Ok(
                                                TorrentSpec {
                                                    trackers: trackers,
                                                    creation: creation,
                                                    comment: comment,
                                                    created_by: created_by,
                                                    private: private,
                                                    piece_length: piece_length as usize,
                                                    piece_hashes: piece_hashes,
                                                    files: files,
                                                },
                                            ),
                                        },
                                    },
                                },
                            },
                        },
                    },
                },
            },
        },
    }
}

/// Relies on `core::str::from_utf8`, which returns `Ok` exactly on bytes
/// that are valid UTF-8, and on vstd's model of `str` (the one its
/// specification of `str::from_utf8_unchecked` states): the view of the
/// returned text is the decoded character sequence of the bytes.
#[verifier::external_body]
fn utf8_to_string(bytes: &Vec<u8>) -> (r: Option<String>)
    ensures
        r is Some <==> valid_utf8(bytes@),
        r matches Some(text) ==> text@ == decode_utf8(bytes@),
{
    match core::str::from_utf8(bytes.as_slice()) {
        Ok(text) => Some(text.to_owned()),
        Err(_) => None,
    }
}

/// Relies on `alloc::string::String::push_str`: it appends exactly the
/// given text to the string.
#[verifier::external_body]
fn push_str(s: &mut String, suffix: &str)
    ensures
        final(s)@ == old(s)@ + suffix@,
{
    s.push_str(suffix);
}

proof fn lemma_find_at_some(text: Seq<char>, pat: Seq<char>, from: int, i: int)
    requires
        0 <= from <= i,
        pat.len() > 0,
        matches_at(text, pat, i),
        forall|j: int| from <= j < i ==> !matches_at(text, pat, j),
    ensures
        find_at(text, pat, from) == Some(i),
    decreases i - from,
{
    if from < i {
        assert(!matches_at(text, pat, from));
        lemma_find_at_some(text, pat, from + 1, i);
    }
}

proof fn lemma_find_at_none(text: Seq<char>, pat: Seq<char>, from: int)
    requires
        0 <= from,
        pat.len() > 0,
        forall|j: int| from <= j ==> !matches_at(text, pat, j),
    ensures
        find_at(text, pat, from) == None::<int>,
    decreases text.len() - from,
{
    if from + pat.len() <= text.len() {
        assert(!matches_at(text, pat, from));
        lemma_find_at_none(text, pat, from + 1);
    }
}

/// Whether `pat` stands in `text` at position `i`, by characters.
fn matches_pat_at(text: &str, n: usize, i: usize, pat: &Vec<char>) -> (r: bool)
    requires
        n == text@.len(),
        i + pat@.len() <= n,
    ensures
        r == matches_at(text@, pat@, i as int),
{
    let m = pat.len();
    let mut k: usize = 0;
    while k < m
        invariant
            0 <= k <= m,
            m == pat@.len(),
            i + m <= n,
            n == text@.len(),
            forall|j: int| 0 <= j < k ==> text@[i + j] == pat@[j],
        decreases m - k,
    {
        let c = text.get_char(i + k);
        let p = pat[k];
        if c != p {
            proof {
                assert(text@.subrange(i as int, i as int + m as int)[k as int] == text@[i + k]);
            }
            return false;
        }
        k = k + 1;
    }
    proof {
        assert(text@.subrange(i as int, i as int + m as int) =~= pat@);
    }
    true
}

impl TrackerAddr {
    /// Classify one tracker address, exactly as [`spec_classify`] says:
    /// text holding `udp://` is a UDP tracker named by everything after
    /// the first occurrence; otherwise an `http://` or `https://` prefix
    /// makes an HTTP tracker kept whole; all other text is unrecognized.
    pub fn from(text: &str) -> (r: TrackerAddr)
        ensures
            r@ == spec_classify(text@),
    {
        let n = text.unicode_len();
        let udp: Vec<char> = vec!['u', 'd', 'p', ':', '/', '/'];
        proof {
            assert(udp@ =~= udp_prefix());
        }
        if n >= 6 {
            let mut i: usize = 0;
            while i <= n - 6
                invariant
                    n == text@.len(),
                    udp@ == udp_prefix(),
                    6 <= n,
                    0 <= i <= n - 5,
                    forall|j: int| 0 <= j < i ==> !matches_at(text@, udp_prefix(), j),
                decreases n - i,
            {
                if matches_pat_at(text, n, i, &udp) {
                    proof {
                        lemma_find_at_some(text@, udp_prefix(), 0, i as int);
                    }
                    let rest = text.substring_char(i + 6, n);
                    return TrackerAddr::UDP(rest.to_owned());
                }
                i = i + 1;
            }
        }
        proof {
            assert forall|j: int| 0 <= j implies !matches_at(text@, udp_prefix(), j) by {
                if j + 6 > n {
                    assert(!matches_at(text@, udp_prefix(), j));
                }
            }
            lemma_find_at_none(text@, udp_prefix(), 0);
        }
        let http: Vec<char> = vec!['h', 't', 't', 'p', ':', '/', '/'];
        proof {
            assert(http@ =~= http_prefix());
        }
        if n >= 7 {
            if matches_pat_at(text, n, 0, &http) {
                return TrackerAddr::HTTP(text.to_owned());
            }
        }
        let https: Vec<char> = vec!['h', 't', 't', 'p', 's', ':', '/', '/'];
        proof {
            assert(https@ =~= https_prefix());
        }
        if n >= 8 {
            if matches_pat_at(text, n, 0, &https) {
                return TrackerAddr::HTTP(text.to_owned());
            }
        }
        TrackerAddr::Unknown(text.to_owned())
    }

    /// Read a tracker address out of a tree: a byte string holding UTF-8
    /// text, classified as [`spec_tracker_addr`] says.
    pub fn try_from(bencoding: &Bencoding) -> (r: Result<TrackerAddr, TryFromBencodingError>)
        ensures
            match r {
                Ok(t) => spec_tracker_addr(bencoding@) == Ok::<
                    TrackerAddrSpec,
                    TryFromBencodingError,
                >(t@),
                Err(e) => spec_tracker_addr(bencoding@) == Err::<TrackerAddrSpec, _>(e),
            },
    {
        match extract_string(bencoding) {
            Ok(text) => Ok(TrackerAddr::from(text.as_str())),
            Err(e) => Err(e),
        }
    }
}

/// We tried to get an int out of a tree.
pub fn extract_int(bencoding: &Bencoding) -> (r: Result<i64, TryFromBencodingError>)
    ensures
        match r {
            Ok(i) => spec_extract_int(bencoding@) == Ok::<i64, TryFromBencodingError>(i),
            Err(e) => spec_extract_int(bencoding@) == Err::<i64, _>(e),
        },
{
    match bencoding {
        Bencoding::Int(i) => Ok(*i),
        _ => Err(TryFromBencodingError::ExpectedInt),
    }
}

/// We tried to get the bytes of a byte string out of a tree.
pub fn extract_bytes<'b>(bencoding: &'b Bencoding) -> (r: Result<
    &'b Vec<u8>,
    TryFromBencodingError,
>)
    ensures
        match r {
            Ok(bytes) => spec_extract_bytes(bencoding@) == Ok::<Seq<u8>, TryFromBencodingError>(
                bytes@,
            ),
            Err(e) => spec_extract_bytes(bencoding@) == Err::<Seq<u8>, _>(e),
        },
{
    match bencoding {
        Bencoding::ByteString(bx) => Ok(bx),
        _ => Err(TryFromBencodingError::ExpectedByteString),
    }
}

/// We tried to get UTF-8 text out of a tree.
pub fn extract_string(bencoding: &Bencoding) -> (r: Result<String, TryFromBencodingError>)
    ensures
        match r {
            Ok(text) => spec_extract_string(bencoding@) == Ok::<Seq<char>, TryFromBencodingError>(
                text@,
            ),
            Err(e) => spec_extract_string(bencoding@) == Err::<Seq<char>, _>(e),
        },
{
    let bytes = match extract_bytes(bencoding) {
        Ok(b) => b,
        Err(e) => {
            return Err(e);
        },
    };
    match utf8_to_string(bytes) {
        Some(text) => Ok(text),
        None => Err(TryFromBencodingError::NotUTF8),
    }
}

/// We tried to get the elements of a list out of a tree.
pub fn extract_list<'b>(bencoding: &'b Bencoding) -> (r: Result<
    &'b Vec<Bencoding>,
    TryFromBencodingError,
>)
    ensures
        match r {
            Ok(items) => spec_extract_list(bencoding@) == Ok::<
                Seq<BencodingSpec>,
                TryFromBencodingError,
            >(models_of(items@)),
            Err(e) => spec_extract_list(bencoding@) == Err::<Seq<BencodingSpec>, _>(e),
        },
{
    match bencoding {
        Bencoding::List(bx) => Ok(bx),
        _ => Err(TryFromBencodingError::ExpectedList),
    }
}

/// The value under an optional key of a dictionary, as [`spec_opt_key`]
/// says.
pub fn lookup_key<'b>(bencoding: &'b Bencoding, key: TorrentKey) -> (r: Option<&'b Bencoding>)
    ensures
        match r {
            Some(x) => spec_opt_key(bencoding@, key) == Some(x@),
            None => spec_opt_key(bencoding@, key) is None,
        },
{
    match bencoding {
        Bencoding::Dict(entries) => {
            let kb = key.to_bytes();
            let mut i: usize = 0;
            while i < entries.len()
                invariant
                    bencoding@ == BencodingSpec::Dict(entry_models_of(entries@)),
                    0 <= i <= entries@.len(),
                    kb@ == key.bytes(),
                    forall|j: int| 0 <= j < i ==> #[trigger] entries@[j].0@ != key.bytes(),
                decreases entries@.len() - i,
            {
                let entry_ref = &entries[i];
                if crate::bencoding::bytes_eq(&entry_ref.0, &kb) {
                    proof {
                        let models = entry_models_of(entries@);
                        lemma_entry_models_of(entries@);
                        lemma_key_index(models, key.bytes());
                        assert(models[i as int].0 == key.bytes());
                        assert forall|j: int| 0 <= j < i implies models[j].0 != key.bytes() by {
                            assert(models[j] == (entries@[j].0@, entries@[j].1@));
                        }
                        assert(key_index(models, key.bytes()) == i as int);
                    }
                    return Some(&entry_ref.1);
                }
                i = i + 1;
            }
            proof {
                let models = entry_models_of(entries@);
                lemma_entry_models_of(entries@);
                lemma_key_index(models, key.bytes());
                assert forall|j: int| 0 <= j < entries@.len() implies models[j].0
                    != key.bytes() by {
                    assert(models[j] == (entries@[j].0@, entries@[j].1@));
                }
                assert(key_index(models, key.bytes()) == entries@.len());
            }
            None
        },
        _ => None,
    }
}

/// We tried to get the value under a required key of a dictionary.
pub fn extract_key<'b>(bencoding: &'b Bencoding, key: TorrentKey) -> (r: Result<
    &'b Bencoding,
    TryFromBencodingError,
>)
    ensures
        match r {
            Ok(x) => spec_extract_key(bencoding@, key) == Ok::<
                BencodingSpec,
                TryFromBencodingError,
            >(x@),
            Err(e) => spec_extract_key(bencoding@, key) == Err::<BencodingSpec, _>(e),
        },
{
    match bencoding {
        Bencoding::Dict(_) => match lookup_key(bencoding, key) {
            Some(x) => Ok(x),
            None => Err(TryFromBencodingError::MissingKey(key)),
        },
        _ => Err(TryFromBencodingError::ExpectedDict),
    }
}

/// We tried to read an integer as a Unix timestamp: non-negative seconds
/// since the epoch, so that the time is representable.
pub fn extract_system_time(bencoding: &Bencoding) -> (r: Result<i64, TryFromBencodingError>)
    ensures
        r == spec_extract_system_time(bencoding@),
{
    let seconds = match extract_int(bencoding) {
        Ok(s) => s,
        Err(e) => {
            return Err(e);
        },
    };
    if seconds < 0 {
        Err(TryFromBencodingError::ExceedsSystemTime(seconds))
    } else {
        Ok(seconds)
    }
}

/// The trackers of a torrent, as [`spec_trackers`] says: the tiers under
/// `announce-list` in order, or the single `announce` address at priority
/// 0.
pub fn extract_trackers(bencoding: &Bencoding) -> (r: Result<
    Vec<(u8, TrackerAddr)>,
    ParseTorrentError,
>)
    ensures
        match r {
            Ok(ts) => spec_trackers(bencoding@) == Ok::<_, ParseTorrentError>(
                trackers_models(ts@),
            ),
            Err(e) => spec_trackers(bencoding@) == Err::<Seq<(u8, TrackerAddrSpec)>, _>(e),
        },
{
    match lookup_key(bencoding, TorrentKey::AnnounceList) {
        None => {
            let a = match extract_key(bencoding, TorrentKey::Announce) {
                Ok(x) => x,
                Err(e) => {
                    return Err(ParseTorrentError::Bencoding(e));
                },
            };
            let tracker = match TrackerAddr::try_from(a) {
                Ok(t) => t,
                Err(e) => {
                    return Err(ParseTorrentError::Bencoding(e));
                },
            };
            let ghost trackerm = tracker@;
            let mut ts: Vec<(u8, TrackerAddr)> = Vec::new();
            ts.push((0u8, tracker));
            proof {
                assert(trackers_models(ts@) =~= seq![(0u8, trackerm)]);
            }
            Ok(ts)
        },
        Some(inner) => {
            let tiers = match extract_list(inner) {
                Ok(l) => l,
                Err(e) => {
                    return Err(ParseTorrentError::Bencoding(e));
                },
            };
            let ghost tiers_m = models_of(tiers@);
            let mut ts: Vec<(u8, TrackerAddr)> = Vec::new();
            proof {
                lemma_models_of(tiers@);
                assert(trackers_models(ts@) =~= Seq::<(u8, TrackerAddrSpec)>::empty());
            }
            let mut idx: usize = 0;
            while idx < tiers.len()
                invariant
                    tiers_m == models_of(tiers@),
                    tiers_m.len() == tiers@.len(),
                    forall|j: int| 0 <= j < tiers@.len() ==> #[trigger] tiers_m[j] == tiers@[j]@,
                    0 <= idx <= tiers@.len(),
                    spec_trackers(bencoding@) == spec_collect_tiers(tiers_m, 0, Seq::empty()),
                    spec_collect_tiers(tiers_m, idx as int, trackers_models(ts@))
                        == spec_collect_tiers(tiers_m, 0, Seq::empty()),
                decreases tiers@.len() - idx,
            {
                let tier_b = &tiers[idx];
                let ghost prio = idx as u8;
                let ghost outer_m = trackers_models(ts@);
                let tier = match extract_list(tier_b) {
                    Ok(l) => l,
                    Err(e) => {
                        return Err(ParseTorrentError::Bencoding(e));
                    },
                };
                let ghost tier_m = models_of(tier@);
                proof {
                    lemma_models_of(tier@);
                }
                let mut j: usize = 0;
                while j < tier.len()
                    invariant
                        tier_m == models_of(tier@),
                        tier_m.len() == tier@.len(),
                        forall|u: int| 0 <= u < tier@.len() ==> #[trigger] tier_m[u] == tier@[u]@,
                        0 <= j <= tier@.len(),
                        idx < tiers_m.len(),
                        prio == idx as u8,
                        spec_trackers(bencoding@) == spec_collect_tiers(
                            tiers_m,
                            0,
                            Seq::empty(),
                        ),
                        spec_extract_list(tiers_m[idx as int]) == Ok::<
                            Seq<BencodingSpec>,
                            TryFromBencodingError,
                        >(tier_m),
                        spec_collect_tiers(tiers_m, idx as int, outer_m) == spec_collect_tiers(
                            tiers_m,
                            0,
                            Seq::empty(),
                        ),
                        spec_collect_tier(tier_m, j as int, prio, trackers_models(ts@))
                            == spec_collect_tier(tier_m, 0, prio, outer_m),
                    decreases tier@.len() - j,
                {
                    let tracker_b = &tier[j];
                    let tracker = match TrackerAddr::try_from(tracker_b) {
                        Ok(t) => t,
                        Err(e) => {
                            proof {
                                assert(spec_collect_tier(tier_m, j as int, prio, trackers_models(
                                    ts@,
                                )) == Err::<Seq<(u8, TrackerAddrSpec)>, _>(
                                    ParseTorrentError::Bencoding(e),
                                ));
                            }
                            return Err(ParseTorrentError::Bencoding(e));
                        },
                    };
                    let ghost trackerm = tracker@;
                    let ghost before = trackers_models(ts@);
                    ts.push((idx as u8, tracker));
                    proof {
                        assert(trackers_models(ts@) =~= before.push((prio, trackerm)));
                    }
                    j = j + 1;
                }
                idx = idx + 1;
            }
            proof {
                assert(spec_collect_tiers(tiers_m, tiers_m.len() as int, trackers_models(ts@))
                    == Ok::<_, ParseTorrentError>(trackers_models(ts@)));
            }
            Ok(ts)
        },
    }
}

/// The piece hashes under `pieces`, as [`spec_piece_hashes`] says:
/// consecutive 20-byte chunks of the byte string, in order.
pub fn extract_piece_hashes(info: &Bencoding) -> (r: Result<Vec<PieceHash>, ParseTorrentError>)
    ensures
        match r {
            Ok(hs) => spec_piece_hashes(info@) == Ok::<_, ParseTorrentError>(hashes_models(hs@)),
            Err(e) => spec_piece_hashes(info@) == Err::<Seq<Seq<u8>>, _>(e),
        },
{
    let pieces_b = match extract_key(info, TorrentKey::Pieces) {
        Ok(x) => x,
        Err(e) => {
            return Err(ParseTorrentError::Bencoding(e));
        },
    };
    let bytes = match extract_bytes(pieces_b) {
        Ok(b) => b,
        Err(e) => {
            return Err(ParseTorrentError::Bencoding(e));
        },
    };
    let n = bytes.len();
    if n % 20 != 0 {
        return Err(ParseTorrentError::BadHashLength(n));
    }
    let count = n / 20;
    let mut hashes: Vec<PieceHash> = Vec::new();
    let mut k: usize = 0;
    while k < count
        invariant
            n == bytes@.len(),
            n % 20 == 0,
            count == n / 20,
            0 <= k <= count,
            hashes@.len() == k,
            forall|u: int| 0 <= u < k ==> #[trigger] hashes@[u]@ == bytes@.subrange(
                20 * u,
                20 * u + 20,
            ),
        decreases count - k,
    {
        proof {
            vstd::arithmetic::div_mod::lemma_fundamental_div_mod(n as int, 20);
        }
        let off = k * 20;
        let mut arr: [u8; 20] = [0u8; 20];
        let mut i: usize = 0;
        while i < 20
            invariant
                0 <= i <= 20,
                off + 20 <= n,
                n == bytes@.len(),
                arr@.len() == 20,
                forall|u: int| 0 <= u < i ==> arr@[u] == bytes@[off + u],
            decreases 20 - i,
        {
            arr[i] = bytes[off + i];
            i = i + 1;
        }
        proof {
            assert(arr@ =~= bytes@.subrange(off as int, off as int + 20));
        }
        hashes.push(PieceHash(arr));
        k = k + 1;
    }
    proof {
        assert(hashes_models(hashes@) =~= Seq::new(
            bytes@.len() / 20,
            |i: int| bytes@.subrange(20 * i, 20 * i + 20),
        ));
    }
    Ok(hashes)
}

/// One relative path built out of the shared directory and one entry's
/// path, as [`spec_join_path`] says.
fn join_path(dir: &String, path: &String) -> (r: String)
    ensures
        r@ == spec_join_path(dir@, path@),
{
    let mut full = dir.clone();
    let sep = "/";
    proof {
        reveal_strlit("/");
        assert(sep@ =~= seq!['/']);
    }
    push_str(&mut full, sep);
    push_str(&mut full, path.as_str());
    proof {
        assert(full@ =~= spec_join_path(dir@, path@));
    }
    full
}

/// The files of a torrent, as [`spec_files`] says: the one `name`/`length`
/// file, or every entry under `files` placed under the shared directory.
pub fn extract_files(info: &Bencoding) -> (r: Result<Vec<FileInfo>, ParseTorrentError>)
    ensures
        match r {
            Ok(fs) => spec_files(info@) == Ok::<_, ParseTorrentError>(files_models(fs@)),
            Err(e) => spec_files(info@) == Err::<Seq<FileInfoSpec>, _>(e),
        },
{
    match lookup_key(info, TorrentKey::Files) {
        None => {
            let name_b = match extract_key(info, TorrentKey::Name) {
                Ok(x) => x,
                Err(e) => {
                    return Err(ParseTorrentError::Bencoding(e));
                },
            };
            let name = match extract_string(name_b) {
                Ok(s) => s,
                Err(e) => {
                    return Err(ParseTorrentError::Bencoding(e));
                },
            };
            let length_b = match extract_key(info, TorrentKey::Length) {
                Ok(x) => x,
                Err(e) => {
                    return Err(ParseTorrentError::Bencoding(e));
                },
            };
            let length = match extract_int(length_b) {
                Ok(i) => i,
                Err(e) => {
                    return Err(ParseTorrentError::Bencoding(e));
                },
            };
            let ghost namem = name@;
            let mut files: Vec<FileInfo> = Vec::new();
            files.push(FileInfo { name, length: length as usize });
            proof {
                assert(files_models(files@) =~= seq![
                    FileInfoSpec { name: namem, length: length as usize },
                ]);
            }
            Ok(files)
        },
        Some(inner) => {
            let name_b = match extract_key(info, TorrentKey::Name) {
                Ok(x) => x,
                Err(e) => {
                    return Err(ParseTorrentError::Bencoding(e));
                },
            };
            let dir = match extract_string(name_b) {
                Ok(s) => s,
                Err(e) => {
                    return Err(ParseTorrentError::Bencoding(e));
                },
            };
            let list = match extract_list(inner) {
                Ok(l) => l,
                Err(e) => {
                    return Err(ParseTorrentError::Bencoding(e));
                },
            };
            let ghost list_m = models_of(list@);
            let ghost dirm = dir@;
            let mut files: Vec<FileInfo> = Vec::new();
            proof {
                lemma_models_of(list@);
                assert(files_models(files@) =~= Seq::<FileInfoSpec>::empty());
            }
            let mut j: usize = 0;
            while j < list.len()
                invariant
                    list_m == models_of(list@),
                    list_m.len() == list@.len(),
                    forall|u: int| 0 <= u < list@.len() ==> #[trigger] list_m[u] == list@[u]@,
                    0 <= j <= list@.len(),
                    dirm == dir@,
                    spec_files(info@) == spec_collect_files(list_m, 0, dirm, Seq::empty()),
                    spec_collect_files(list_m, j as int, dirm, files_models(files@))
                        == spec_collect_files(list_m, 0, dirm, Seq::empty()),
                decreases list@.len() - j,
            {
                let file_b = &list[j];
                let length_b = match extract_key(file_b, TorrentKey::Length) {
                    Ok(x) => x,
                    Err(e) => {
                        return Err(ParseTorrentError::Bencoding(e));
                    },
                };
                let length = match extract_int(length_b) {
                    Ok(i) => i,
                    Err(e) => {
                        return Err(ParseTorrentError::Bencoding(e));
                    },
                };
                let path_b = match extract_key(file_b, TorrentKey::Path) {
                    Ok(x) => x,
                    Err(e) => {
                        return Err(ParseTorrentError::Bencoding(e));
                    },
                };
                let path = match extract_string(path_b) {
                    Ok(s) => s,
                    Err(e) => {
                        return Err(ParseTorrentError::Bencoding(e));
                    },
                };
                let full = join_path(&dir, &path);
                let ghost fullm = full@;
                let ghost before = files_models(files@);
                files.push(FileInfo { name: full, length: length as usize });
                proof {
                    assert(files_models(files@) =~= before.push(
                        FileInfoSpec { name: fullm, length: length as usize },
                    ));
                }
                j = j + 1;
            }
            Ok(files)
        },
    }
}

impl Torrent {
    /// Read a torrent out of a decoded tree.
    ///
    /// The result is exactly what [`spec_torrent`] describes: on success
    /// the record holding trackers, timestamps, flags, piece hashes and
    /// files, and on failure the first error in the extraction order.
    pub fn try_from(bencoding: &Bencoding) -> (r: Result<Torrent, ParseTorrentError>)
        ensures
            match r {
                Ok(t) => spec_torrent(bencoding@) == Ok::<TorrentSpec, ParseTorrentError>(t@),
                Err(e) => spec_torrent(bencoding@) == Err::<TorrentSpec, _>(e),
            },
    {
        let trackers = match extract_trackers(bencoding) {
            Ok(t) => t,
            Err(e) => {
                return Err(e);
            },
        };
        let creation = match lookup_key(bencoding, TorrentKey::CreationDate) {
            None => None,
            Some(inner) => match extract_system_time(inner) {
                Ok(secs) => Some(secs),
                Err(e) => {
                    return Err(ParseTorrentError::Bencoding(e));
                },
            },
        };
        let comment = match lookup_key(bencoding, TorrentKey::Comment) {
            None => None,
            Some(inner) => match extract_string(inner) {
                Ok(text) => Some(text),
                Err(e) => {
                    return Err(ParseTorrentError::Bencoding(e));
                },
            },
        };
        let created_by = match lookup_key(bencoding, TorrentKey::CreatedBy) {
            None => None,
            Some(inner) => match extract_string(inner) {
                Ok(text) => Some(text),
                Err(e) => {
                    return Err(ParseTorrentError::Bencoding(e));
                },
            },
        };
        let info = match extract_key(bencoding, TorrentKey::Info) {
            Ok(i) => i,
            Err(e) => {
                return Err(ParseTorrentError::Bencoding(e));
            },
        };
        let private = match lookup_key(info, TorrentKey::Private) {
            None => false,
            Some(inner) => match extract_int(inner) {
                Ok(i) => i == 1,
                Err(e) => {
                    return Err(ParseTorrentError::Bencoding(e));
                },
            },
        };
        let piece_length_b = match extract_key(info, TorrentKey::PieceLength) {
            Ok(x) => x,
            Err(e) => {
                return Err(ParseTorrentError::Bencoding(e));
            },
        };
        let piece_length = match extract_int(piece_length_b) {
            Ok(i) => i,
            Err(e) => {
                return Err(ParseTorrentError::Bencoding(e));
            },
        };
        let piece_hashes = match extract_piece_hashes(info) {
            Ok(h) => h,
            Err(e) => {
                return Err(e);
            },
        };
        let files = match extract_files(info) {
            Ok(f) => f,
            Err(e) => {
                return Err(e);
            },
        };
        let ghost trackersm = trackers_models(trackers@);
        let ghost hashesm = hashes_models(piece_hashes@);
        let ghost filesm = files_models(files@);
        let ghost commentm: Option<Seq<char>> = match comment {
            Some(ref c) => Some(c@),
            None => None,
        };
        let ghost created_bym: Option<Seq<char>> = match created_by {
            Some(ref c) => Some(c@),
            None => None,
        };
        let t = Torrent {
            trackers,
            creation,
            comment,
            created_by,
            private,
            piece_length: piece_length as usize,
            piece_hashes,
            files,
        };
        proof {
            assert(t@ =~~= TorrentSpec {
                trackers: trackersm,
                creation: creation,
                comment: commentm,
                created_by: created_bym,
                private: private,
                piece_length: piece_length as usize,
                piece_hashes: hashesm,
                files: filesm,
            });
        }
        Ok(t)
    }
}

} // verus!
