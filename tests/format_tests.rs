use keepass_merge::format::{DatabaseIntegrityError, DatabaseVersion, KDBXHeaderFieldID};
use keepass_merge::iconid::{IconId, ParseIconIdError};

#[test]
fn test_open_invalid_version_header_size() {
    assert!(DatabaseVersion::parse(&[]).is_err());
    assert!(DatabaseVersion::parse(&[0, 0, 0, 0, 0, 0, 0, 0]).is_err());
    assert!(DatabaseVersion::parse(&[0, 0, 0, 0, 0, 0, 0, 0, 0, 0, 0, 0]).is_err());
}

#[test]
fn parse_kdbx4_header() {
    let data = [0x03, 0xd9, 0xa2, 0x9a, 0x67, 0xfb, 0x4b, 0xb5, 0x01, 0x00, 0x04, 0x00];
    assert_eq!(DatabaseVersion::parse(&data), Ok(DatabaseVersion::KDB4(1)));
    let data = [0x03, 0xd9, 0xa2, 0x9a, 0x67, 0xfb, 0x4b, 0xb5, 0x01, 0x00, 0x03, 0x00];
    assert_eq!(DatabaseVersion::parse(&data), Ok(DatabaseVersion::KDB3(1)));
    let data = [0x03, 0xd9, 0xa2, 0x9a, 0x65, 0xfb, 0x4b, 0xb5];
    assert_eq!(DatabaseVersion::parse(&data), Ok(DatabaseVersion::KDB(0)));
    let data = [0x03, 0xd9, 0xa2, 0x9a, 0x67, 0xfb, 0x4b, 0xb5, 0x02, 0x00, 0x05, 0x00];
    assert_eq!(
        DatabaseVersion::parse(&data),
        Err(DatabaseIntegrityError::InvalidKDBXVersion {
            version: 0xb54b_fb67,
            file_major_version: 5,
            file_minor_version: 2
        })
    );
    assert_eq!(DatabaseVersion::parse(&[1, 2, 3, 4]), Err(DatabaseIntegrityError::InvalidKDBXIdentifier));
    assert_eq!(DatabaseVersion::get_version_header_size(), 12);
}

#[test]
fn header_field_ids() {
    assert_eq!(KDBXHeaderFieldID::try_from_u8(4), Ok(KDBXHeaderFieldID::MasterSeed));
    assert_eq!(KDBXHeaderFieldID::PublicCustomData.to_u8(), 12);
    assert_eq!(
        KDBXHeaderFieldID::try_from_u8(13),
        Err(DatabaseIntegrityError::InvalidKDBXHeaderFieldID { field_id: 13 })
    );
}

#[test]
fn icon_ids() {
    assert_eq!(IconId::try_from_index(68), Ok(IconId(68)));
    assert_eq!(IconId::try_from_index(69), Err(ParseIconIdError { icon_id: 69 }));
    assert_eq!(IconId(IconId::FOLDER).index(), 48);
}

#[test]
fn dump_writes_a_header_that_parses_back() {
    let bytes = DatabaseVersion::KDB4(7).dump();
    assert_eq!(bytes, vec![0x03, 0xd9, 0xa2, 0x9a, 0x67, 0xfb, 0x4b, 0xb5, 7, 0, 4, 0]);
    assert_eq!(DatabaseVersion::parse(&bytes), Ok(DatabaseVersion::KDB4(7)));
}
