use ext4_core::symlink::{Legacy, Symlink};
use ext4_core::types::FsError;

fn target(s: &[u8]) -> Legacy {
    let mut bytes = [0u8; 60];
    bytes[..s.len()].copy_from_slice(s);
    let mut addresses = [0u32; 15];
    for i in 0..15 {
        addresses[i] = u32::from_le_bytes([bytes[4 * i], bytes[4 * i + 1], bytes[4 * i + 2], bytes[4 * i + 3]]);
    }
    Legacy { addresses }
}

#[test]
fn inline_data_is_the_addresses_little_endian() {
    let mut addresses = [0u32; 15];
    addresses[0] = 0x6463_6261;
    addresses[14] = 0x0102_0304;
    let d = Legacy { addresses }.to_inline_data();
    assert_eq!(d.len(), 60);
    assert_eq!(&d[0..4], b"abcd");
    assert_eq!(&d[56..60], &[4, 3, 2, 1]);
}

#[test]
fn readlink_gives_the_inline_target() {
    let s = Symlink { size: 11, addresses: target(b"/etc/passwd") };
    assert_eq!(s.readlink().unwrap(), b"/etc/passwd".to_vec());
    let empty = Symlink { size: 0, addresses: target(b"") };
    assert_eq!(empty.readlink().unwrap(), Vec::<u8>::new());
    let full = Symlink { size: 60, addresses: target(&[b'x'; 60]) };
    assert_eq!(full.readlink().unwrap(), vec![b'x'; 60]);
}

#[test]
fn readlink_of_a_long_target_is_refused() {
    let s = Symlink { size: 61, addresses: target(b"") };
    assert_eq!(s.readlink(), Err(FsError::InvalidFs));
}
