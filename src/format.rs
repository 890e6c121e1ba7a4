//! The version header at the start of a database file, and the ids of the
//! outer header's fields.

use vstd::prelude::*;
use byteorder::{ByteOrder, LittleEndian};
use vstd::string::StringExecFns;
use crate::color::{hex_char, hex_digit_str};

verus! {

/// The four bytes every KeePass database starts with.
pub const KDBX_IDENTIFIER_0: u8 = 0x03;
pub const KDBX_IDENTIFIER_1: u8 = 0xd9;
pub const KDBX_IDENTIFIER_2: u8 = 0xa2;
pub const KDBX_IDENTIFIER_3: u8 = 0x9a;

/// Identifier for the KeePass 1 format.
pub const KEEPASS_1_ID: u32 = 0xb54b_fb65;
/// Identifier for the KeePass 2 pre-release format.
pub const KEEPASS_2_ID: u32 = 0xb54b_fb66;
/// Identifier for the latest KeePass formats.
pub const KEEPASS_LATEST_ID: u32 = 0xb54b_fb67;

pub const KDBX3_MAJOR_VERSION: u16 = 3;
pub const KDBX4_MAJOR_VERSION: u16 = 4;
pub const KDBX4_CURRENT_MINOR_VERSION: u16 = 0;

/// The little-endian value of the four bytes at `pos`.
pub open spec fn u32_le(s: Seq<u8>, pos: int) -> int {
    s[pos] as int + 256 * s[pos + 1] as int + 65536 * s[pos + 2] as int + 16777216 * s[pos + 3] as int
}

/// The little-endian value of the two bytes at `pos`.
pub open spec fn u16_le(s: Seq<u8>, pos: int) -> int {
    s[pos] as int + 256 * s[pos + 1] as int
}

/// Relies on byteorder's LittleEndian::read_u32: the four bytes at `pos`,
/// least significant first.
#[verifier::external_body]
fn read_u32_at(data: &[u8], pos: usize) -> (r: u32)
    requires
        pos + 4 <= data@.len(),
    ensures
        r as int == u32_le(data@, pos as int),
{
    LittleEndian::read_u32(&data[pos..pos + 4])
}

/// Relies on byteorder's LittleEndian::read_u16: the two bytes at `pos`,
/// least significant first.
#[verifier::external_body]
fn read_u16_at(data: &[u8], pos: usize) -> (r: u16)
    requires
        pos + 2 <= data@.len(),
    ensures
        r as int == u16_le(data@, pos as int),
{
    LittleEndian::read_u16(&data[pos..pos + 2])
}

/// A binary attachment stored in a database's inner header.
pub struct HeaderAttachment {
    pub flags: u8,
    pub content: Vec<u8>,
}

/// A malformed database header.
#[derive(Debug, Clone, Copy, PartialEq, Eq, Structural)]
pub enum DatabaseIntegrityError {
    InvalidKDBXIdentifier,
    InvalidKDBXVersion { version: u32, file_major_version: u32, file_minor_version: u32 },
    InvalidKDBXHeaderFieldID { field_id: u8 },
}

/// The database format, with its minor version.
#[derive(Debug, Clone, Copy, PartialEq, Eq, Structural)]
pub enum DatabaseVersion {
    KDB(u16),
    KDB2(u16),
    KDB3(u16),
    KDB4(u16),
}

/// The word at `pos`, or 0 where the data ends before it.
pub open spec fn u32_or_zero(s: Seq<u8>, pos: int) -> int {
    if pos + 4 <= s.len() { u32_le(s, pos) } else { 0 }
}

pub open spec fn u16_or_zero(s: Seq<u8>, pos: int) -> int {
    if pos + 2 <= s.len() { u16_le(s, pos) } else { 0 }
}

pub open spec fn has_identifier(s: Seq<u8>) -> bool {
    s.len() >= 4 && s[0] == KDBX_IDENTIFIER_0 && s[1] == KDBX_IDENTIFIER_1 && s[2] == KDBX_IDENTIFIER_2
        && s[3] == KDBX_IDENTIFIER_3
}

/// What the version header of `s` says.
pub open spec fn parse_spec(s: Seq<u8>) -> Result<DatabaseVersion, DatabaseIntegrityError> {
    if !has_identifier(s) {
        Err(DatabaseIntegrityError::InvalidKDBXIdentifier)
    } else {
        let version = u32_or_zero(s, 4);
        let minor = u16_or_zero(s, 8);
        let major = u16_or_zero(s, 10);
        if version == KEEPASS_1_ID {
            Ok(DatabaseVersion::KDB(minor as u16))
        } else if version == KEEPASS_2_ID {
            Ok(DatabaseVersion::KDB2(minor as u16))
        } else if version == KEEPASS_LATEST_ID && major == KDBX3_MAJOR_VERSION {
            Ok(DatabaseVersion::KDB3(minor as u16))
        } else if version == KEEPASS_LATEST_ID && major == KDBX4_MAJOR_VERSION {
            Ok(DatabaseVersion::KDB4(minor as u16))
        } else {
            Err(DatabaseIntegrityError::InvalidKDBXVersion {
                version: version as u32,
                file_major_version: major as u32,
                file_minor_version: minor as u32,
            })
        }
    }
}

impl DatabaseVersion {
    /// Reads the version header at the start of `data`. A word cut short by
    /// the end of the data reads as 0.
    pub fn parse(data: &[u8]) -> (r: Result<DatabaseVersion, DatabaseIntegrityError>)
        ensures
            r == parse_spec(data@),
    {
        if data.len() < 4 || data[0] != KDBX_IDENTIFIER_0 || data[1] != KDBX_IDENTIFIER_1
            || data[2] != KDBX_IDENTIFIER_2 || data[3] != KDBX_IDENTIFIER_3 {
            return Err(DatabaseIntegrityError::InvalidKDBXIdentifier);
        }
        let version: u32 = if data.len() >= 8 { read_u32_at(data, 4) } else { 0 };
        let file_minor_version: u16 = if data.len() >= 10 { read_u16_at(data, 8) } else { 0 };
        let file_major_version: u16 = if data.len() >= 12 { read_u16_at(data, 10) } else { 0 };
        if version == KEEPASS_1_ID {
            Ok(DatabaseVersion::KDB(file_minor_version))
        } else if version == KEEPASS_2_ID {
            Ok(DatabaseVersion::KDB2(file_minor_version))
        } else if version == KEEPASS_LATEST_ID && file_major_version == KDBX3_MAJOR_VERSION {
            Ok(DatabaseVersion::KDB3(file_minor_version))
        } else if version == KEEPASS_LATEST_ID && file_major_version == KDBX4_MAJOR_VERSION {
            Ok(DatabaseVersion::KDB4(file_minor_version))
        } else {
            Err(DatabaseIntegrityError::InvalidKDBXVersion {
                version,
                file_major_version: file_major_version as u32,
                file_minor_version: file_minor_version as u32,
            })
        }
    }

    /// The length of the version header.
    pub fn get_version_header_size() -> (r: usize)
        ensures
            r == 12,
    {
        12
    }
}

/// The id of a field of the outer header.
#[derive(Debug, Clone, Copy, PartialEq, Eq, PartialOrd, Ord, Hash, Structural)]
pub enum KDBXHeaderFieldID {
    EndOfHeader,
    Comment,
    CipherID,
    CompressionFlags,
    MasterSeed,
    TransformSeed,
    TransformRounds,
    EncryptionIV,
    InnerRandomStreamKey,
    StreamStartBytes,
    InnerRandomStreamID,
    KdfParameters,
    PublicCustomData,
}

impl KDBXHeaderFieldID {
    /// The byte that stands for the id in a header.
    pub open spec fn code(self) -> u8 {
        match self {
            KDBXHeaderFieldID::EndOfHeader => 0,
            KDBXHeaderFieldID::Comment => 1,
            KDBXHeaderFieldID::CipherID => 2,
            KDBXHeaderFieldID::CompressionFlags => 3,
            KDBXHeaderFieldID::MasterSeed => 4,
            KDBXHeaderFieldID::TransformSeed => 5,
            KDBXHeaderFieldID::TransformRounds => 6,
            KDBXHeaderFieldID::EncryptionIV => 7,
            KDBXHeaderFieldID::InnerRandomStreamKey => 8,
            KDBXHeaderFieldID::StreamStartBytes => 9,
            KDBXHeaderFieldID::InnerRandomStreamID => 10,
            KDBXHeaderFieldID::KdfParameters => 11,
            KDBXHeaderFieldID::PublicCustomData => 12,
        }
    }

    /// The id that `value` stands for; ids run from 0 to 12.
    pub fn try_from_u8(value: u8) -> (r: Result<KDBXHeaderFieldID, DatabaseIntegrityError>)
        ensures
            value <= 12 ==> r.is_ok() && r.unwrap().code() == value,
            value > 12 ==> r == Err::<KDBXHeaderFieldID, DatabaseIntegrityError>(DatabaseIntegrityError::InvalidKDBXHeaderFieldID { field_id: value }),
    {
        match value {
            0 => Ok(KDBXHeaderFieldID::EndOfHeader),
            1 => Ok(KDBXHeaderFieldID::Comment),
            2 => Ok(KDBXHeaderFieldID::CipherID),
            3 => Ok(KDBXHeaderFieldID::CompressionFlags),
            4 => Ok(KDBXHeaderFieldID::MasterSeed),
            5 => Ok(KDBXHeaderFieldID::TransformSeed),
            6 => Ok(KDBXHeaderFieldID::TransformRounds),
            7 => Ok(KDBXHeaderFieldID::EncryptionIV),
            8 => Ok(KDBXHeaderFieldID::InnerRandomStreamKey),
            9 => Ok(KDBXHeaderFieldID::StreamStartBytes),
            10 => Ok(KDBXHeaderFieldID::InnerRandomStreamID),
            11 => Ok(KDBXHeaderFieldID::KdfParameters),
            12 => Ok(KDBXHeaderFieldID::PublicCustomData),
            _ => Err(DatabaseIntegrityError::InvalidKDBXHeaderFieldID { field_id: value }),
        }
    }

    /// The byte that stands for the id in a header.
    pub fn to_u8(&self) -> (r: u8)
        ensures
            r == self.code(),
    {
        match self {
            KDBXHeaderFieldID::EndOfHeader => 0,
            KDBXHeaderFieldID::Comment => 1,
            KDBXHeaderFieldID::CipherID => 2,
            KDBXHeaderFieldID::CompressionFlags => 3,
            KDBXHeaderFieldID::MasterSeed => 4,
            KDBXHeaderFieldID::TransformSeed => 5,
            KDBXHeaderFieldID::TransformRounds => 6,
            KDBXHeaderFieldID::EncryptionIV => 7,
            KDBXHeaderFieldID::InnerRandomStreamKey => 8,
            KDBXHeaderFieldID::StreamStartBytes => 9,
            KDBXHeaderFieldID::InnerRandomStreamID => 10,
            KDBXHeaderFieldID::KdfParameters => 11,
            KDBXHeaderFieldID::PublicCustomData => 12,
        }
    }
}

/// The decimal digits of `n`, without leading zeros.
pub open spec fn decimal_text(n: nat) -> Seq<char>
    decreases n,
{
    if n < 10 {
        seq![hex_char(n as int)]
    } else {
        decimal_text(n / 10) + seq![hex_char((n % 10) as int)]
    }
}

fn push_decimal(s: String, n: u16) -> (r: String)
    ensures
        r@ == s@ + decimal_text(n as nat),
    decreases n,
{
    if n < 10 {
        s.concat(hex_digit_str(n as u8))
    } else {
        let s2 = push_decimal(s, n / 10);
        let r = s2.concat(hex_digit_str((n % 10) as u8));
        assert(r@ =~= s@ + decimal_text(n as nat));
        r
    }
}

impl DatabaseVersion {
    /// The version's name: `KDB`, `KDBX2`, or `KDBX3.`/`KDBX4.` and the minor version.
    pub fn to_string(&self) -> (r: String)
        ensures
            r@ == match *self {
                DatabaseVersion::KDB(_) => "KDB"@,
                DatabaseVersion::KDB2(_) => "KDBX2"@,
                DatabaseVersion::KDB3(m) => "KDBX3."@ + decimal_text(m as nat),
                DatabaseVersion::KDB4(m) => "KDBX4."@ + decimal_text(m as nat),
            },
    {
        proof {
            reveal_strlit("KDB");
            reveal_strlit("KDBX2");
            reveal_strlit("KDBX3.");
            reveal_strlit("KDBX4.");
        }
        match self {
            DatabaseVersion::KDB(_) => String::from_str("KDB"),
            DatabaseVersion::KDB2(_) => String::from_str("KDBX2"),
            DatabaseVersion::KDB3(m) => push_decimal(String::from_str("KDBX3."), *m),
            DatabaseVersion::KDB4(m) => push_decimal(String::from_str("KDBX4."), *m),
        }
    }
}

/// The version header of a KDBX 4 database with the given minor version.
pub open spec fn kdbx4_header(minor: u16) -> Seq<u8> {
    seq![
        KDBX_IDENTIFIER_0, KDBX_IDENTIFIER_1, KDBX_IDENTIFIER_2, KDBX_IDENTIFIER_3,
        0x67u8, 0xfbu8, 0x4bu8, 0xb5u8,
        (minor % 256) as u8, (minor / 256) as u8,
        4u8, 0u8,
    ]
}

impl DatabaseVersion {
    /// The version header that starts a database of this version; only
    /// KDBX 4 is ever written.
    pub fn dump(&self) -> (r: Vec<u8>)
        requires
            *self is KDB4,
        ensures
            r@ == kdbx4_header(self->KDB4_0),
    {
        let minor = match self {
            DatabaseVersion::KDB4(m) => *m,
            _ => 0,
        };
        let mut r: Vec<u8> = Vec::new();
        r.push(KDBX_IDENTIFIER_0);
        r.push(KDBX_IDENTIFIER_1);
        r.push(KDBX_IDENTIFIER_2);
        r.push(KDBX_IDENTIFIER_3);
        r.push(0x67);
        r.push(0xfb);
        r.push(0x4b);
        r.push(0xb5);
        r.push((minor % 256) as u8);
        r.push((minor / 256) as u8);
        r.push(4);
        r.push(0);
        assert(r@ =~= kdbx4_header(minor));
        r
    }
}

/// Reading the header that `dump` writes gives the version back.
pub proof fn lemma_dump_parse_round_trip(minor: u16)
    ensures
        parse_spec(kdbx4_header(minor)) == Ok::<DatabaseVersion, DatabaseIntegrityError>(DatabaseVersion::KDB4(minor)),
{
    let h = kdbx4_header(minor);
    assert(u32_le(h, 4) == KEEPASS_LATEST_ID);
    assert(u16_le(h, 8) == minor as int);
    assert(u16_le(h, 10) == 4);
}

} // verus!
