use ase_index::ase::{AseId, AsesById};
use asefile::AsepriteFile;
use std::collections::hash_map::DefaultHasher;
use std::hash::{Hash, Hasher};
use std::path::PathBuf;

/// A minimal Aseprite file: a 128-byte header with the given width, RGBA
/// pixel format, and no frames.
fn ase_bytes(width: u16) -> Vec<u8> {
    let mut b: Vec<u8> = Vec::new();
    b.extend_from_slice(&128u32.to_le_bytes()); // file size
    b.extend_from_slice(&0xA5E0u16.to_le_bytes()); // magic number
    b.extend_from_slice(&0u16.to_le_bytes()); // frames
    b.extend_from_slice(&width.to_le_bytes()); // width in pixels
    b.extend_from_slice(&1u16.to_le_bytes()); // height in pixels
    b.extend_from_slice(&32u16.to_le_bytes()); // color depth: RGBA
    b.extend_from_slice(&0u32.to_le_bytes()); // flags
    b.extend_from_slice(&100u16.to_le_bytes()); // default frame time
    b.extend_from_slice(&0u32.to_le_bytes()); // reserved
    b.extend_from_slice(&0u32.to_le_bytes()); // reserved
    b.push(0); // transparent color index
    b.push(0); // ignored
    b.extend_from_slice(&0u16.to_le_bytes()); // ignored
    b.extend_from_slice(&0u16.to_le_bytes()); // number of colors
    b.push(1); // pixel width
    b.push(1); // pixel height
    b.extend_from_slice(&0i16.to_le_bytes()); // grid x
    b.extend_from_slice(&0i16.to_le_bytes()); // grid y
    b.extend_from_slice(&0u16.to_le_bytes()); // grid width
    b.extend_from_slice(&0u16.to_le_bytes()); // grid height
    b.extend_from_slice(&[0u8; 84]); // reserved
    b
}

fn parsed(width: u16) -> AsepriteFile {
    AsepriteFile::read(&ase_bytes(width)[..]).unwrap()
}

fn hash_of(id: &AseId) -> u64 {
    let mut h = DefaultHasher::new();
    id.hash(&mut h);
    h.finish()
}

#[test]
fn ase_id_new_and_inner() {
    let id = AseId::new(7);
    assert_eq!(*id.inner(), 7u32);
    assert_eq!(*AseId::new(0).inner(), 0u32);
    assert_eq!(*AseId::new(u32::MAX).inner(), u32::MAX);
}

#[test]
fn ase_id_display_five() {
    assert_eq!(AseId::new(5).to_string(), "AseId(5)");
}

#[test]
fn ase_id_display_various() {
    assert_eq!(AseId::new(0).to_string(), "AseId(0)");
    assert_eq!(AseId::new(10).to_string(), "AseId(10)");
    assert_eq!(AseId::new(1048576).to_string(), "AseId(1048576)");
    assert_eq!(AseId::new(u32::MAX).to_string(), "AseId(4294967295)");
}

#[test]
fn ase_id_equality_follows_values() {
    assert_eq!(AseId::new(3), AseId::new(3));
    assert_ne!(AseId::new(3), AseId::new(4));
    let copy = AseId::new(9);
    assert_eq!(copy, copy.clone());
}

#[test]
fn ase_id_equal_values_hash_alike() {
    assert_eq!(hash_of(&AseId::new(3)), hash_of(&AseId::new(3)));
    assert_eq!(hash_of(&AseId::new(0)), hash_of(&AseId::new(0)));
}

#[test]
fn build_two_files() {
    let input = vec![
        (PathBuf::from("a.ase"), parsed(3)),
        (PathBuf::from("b.ase"), parsed(5)),
    ];
    let ases = AsesById::from(input);
    let entries: Vec<_> = ases.iter().collect();
    assert_eq!(entries.len(), 2);
    let mut keys: Vec<u32> = entries.iter().map(|(k, _)| **k).collect();
    keys.sort();
    assert_eq!(keys, vec![0, 1]);
    for (k, record) in entries {
        assert_eq!(record.id, AseId::new(*k));
        match *k {
            0 => {
                assert_eq!(record.path, PathBuf::from("a.ase"));
                assert_eq!(record.file.width(), 3);
            }
            1 => {
                assert_eq!(record.path, PathBuf::from("b.ase"));
                assert_eq!(record.file.width(), 5);
            }
            _ => unreachable!(),
        }
    }
}

#[test]
fn build_empty() {
    let ases = AsesById::from(Vec::new());
    assert_eq!(ases.iter().count(), 0);
}

#[test]
fn build_assigns_sequential_ids() {
    let input = vec![
        (PathBuf::from("one.ase"), parsed(1)),
        (PathBuf::from("two.ase"), parsed(2)),
        (PathBuf::from("three.ase"), parsed(3)),
        (PathBuf::from("four.ase"), parsed(4)),
    ];
    let ases = AsesById::from(input);
    let mut keys: Vec<u32> = ases.iter().map(|(k, _)| *k).collect();
    keys.sort();
    assert_eq!(keys, vec![0, 1, 2, 3]);
    for (k, record) in ases.iter() {
        assert_eq!(*record.id.inner(), *k);
    }
}

#[test]
fn build_keeps_content_verbatim() {
    let names = ["p0.ase", "p1.ase", "p2.ase"];
    let input: Vec<(PathBuf, AsepriteFile)> = names
        .iter()
        .enumerate()
        .map(|(i, name)| (PathBuf::from(name), parsed(i as u16 + 1)))
        .collect();
    let ases = AsesById::from(input);
    for (k, record) in ases.iter() {
        let i = *k as usize;
        assert_eq!(record.path, PathBuf::from(names[i]));
        assert_eq!(record.file.width(), i + 1);
        assert_eq!(record.file.height(), 1);
        assert_eq!(record.file.num_frames(), 0);
    }
}

#[test]
fn iteration_is_restartable_and_duplicate_free() {
    let input = vec![
        (PathBuf::from("x.ase"), parsed(1)),
        (PathBuf::from("y.ase"), parsed(2)),
    ];
    let ases = AsesById::from(input);
    let first: Vec<u32> = ases.iter().map(|(k, _)| *k).collect();
    let second: Vec<u32> = ases.iter().map(|(k, _)| *k).collect();
    assert_eq!(first.len(), 2);
    assert_eq!(second.len(), 2);
    let mut dedup = first.clone();
    dedup.sort();
    dedup.dedup();
    assert_eq!(dedup.len(), first.len());
}
