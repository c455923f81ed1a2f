use building_codec::model::{Block, Building, Metadata, PackedVectors, Root, TypeSettings};
use building_codec::decode::read_building;
use building_codec::encode::write_building;
use building_codec::primitives::{pack_bools, pack_color, read_7bit_encoded_int, unpack_bools,
    unpack_color};
use building_codec::registry::{flag, get_flags};
use building_codec::Error;
use rand::RngExt;

fn root_at(p: [f32; 3], center: [f32; 3], size: [f32; 3]) -> Root {
    Root {
        position: [p[0].to_bits(), p[1].to_bits(), p[2].to_bits()],
        rotation: [0f32.to_bits(); 3],
        bounds_center: [center[0].to_bits(), center[1].to_bits(), center[2].to_bits()],
        bounds_size: [size[0].to_bits(), size[1].to_bits(), size[2].to_bits()],
    }
}

fn plain_block(root: u16) -> Block {
    Block {
        position: [0; 3],
        position_in_bounds: [0; 3],
        rotation: [0; 3],
        id: 5,
        root,
        name: None,
        enable_state: 0,
        enable_state_current: 0,
        overdriven: false,
        connections: Vec::new(),
        load: None,
        color: None,
        metadata: None,
    }
}

fn empty_metadata() -> Metadata {
    Metadata {
        toggles: Vec::new(),
        values: Vec::new(),
        fields: Vec::new(),
        dropdowns: Vec::new(),
        colors: Vec::new(),
        gradients: Vec::new(),
        vectors: Vec::new(),
        vectors_packed: PackedVectors { lo: 0, hi: 0, data: Vec::new() },
        type_settings: TypeSettings::Empty,
    }
}

#[test]
fn test_pack_unpack_roundtrip() {
    let mut rng = rand::rng();

    for _ in 0..1000 {
        let rgb: [u8; 3] = [rng.random(), rng.random(), rng.random()];
        let packed = pack_color(rgb);
        let unpacked = unpack_color(packed);
        let repacked = pack_color(unpacked);

        assert_eq!(
            packed, repacked,
            "Round-trip failed: original {:?}, packed {:#06x}, unpacked {:?}, repacked {:#06x}",
            rgb, packed, unpacked, repacked
        );
    }
}

#[test]
fn color_pack_known_value() {
    // all channels at full scale pack to the all-ones word
    assert_eq!(pack_color([0xFF, 0xFF, 0xFF]), 0xFFFF);
    assert_eq!(pack_color([0, 0, 0]), 0);
    assert_eq!(unpack_color(0xFFFF), [0xF8, 0xFC, 0xF8]);
}

#[test]
fn varint_roundtrip_and_bounds() {
    // single byte
    assert_eq!(read_7bit_encoded_int(&[0x05], 0), Some((1, 5)));
    // two bytes, lowest bits first: 0x80 + 1 = 128 + (1 << 7)?  128 is
    // 0x80 0x01 on the wire
    assert_eq!(read_7bit_encoded_int(&[0x80, 0x01], 0), Some((2, 128)));
    // a padded (non-minimal) encoding is rejected
    assert_eq!(read_7bit_encoded_int(&[0x80, 0x00], 0), None);
    // truncation is rejected
    assert_eq!(read_7bit_encoded_int(&[0x80], 0), None);
}

#[test]
fn bools_pack_lsb_first() {
    let flags = vec![true, false, true, false, false, false, false, false, true];
    let bytes = pack_bools(&flags);
    assert_eq!(bytes, vec![0b0000_0101, 0b0000_0001]);
    assert_eq!(unpack_bools(&bytes, 9), flags);
}

#[test]
fn registry_flags() {
    assert_eq!(flag("non_interactable"), 1);
    assert_eq!(flag("tool"), 2);
    assert_eq!(flag("custom_block"), 4);
    assert_eq!(get_flags(0), 1);
    assert_eq!(get_flags(109), 4);
    assert_eq!(get_flags(5), 0);
}

fn roundtrip(b: &Building, version: u8) -> Building {
    let bytes = write_building(b, version).expect("encode");
    let back = read_building(&bytes).expect("decode");
    let again = write_building(&back, version).expect("re-encode");
    assert_eq!(bytes, again, "re-encoding the decoded building changed the stream");
    back
}

#[test]
fn roundtrip_every_version() {
    for version in 0..=6u8 {
        let b = Building {
            roots: vec![root_at([1.0, 2.0, 3.0], [0.5, 0.0, 0.0], [1.0, 0.0, 0.0])],
            blocks: vec![
                Block {
                    position: [1f32.to_bits(), 0, 0],
                    position_in_bounds: [100, -5, 7],
                    rotation: [10, 20, 30],
                    name: Some(String::from("hinge")),
                    enable_state: 128,
                    enable_state_current: 3,
                    overdriven: false,
                    connections: vec![1],
                    load: Some(1),
                    color: Some([0xF8, 0xFC, 0xF8]),
                    metadata: None,
                    ..plain_block(0)
                },
                plain_block(0),
            ],
        };
        let back = roundtrip(&b, version);
        assert_eq!(back.roots.len(), 1);
        assert_eq!(back.blocks.len(), 2);
        assert_eq!(back.blocks[0].rotation, [10, 20, 30]);
        assert_eq!(back.blocks[0].name.as_deref(), Some("hinge"));
        assert_eq!(back.blocks[0].connections, vec![1]);
        assert_eq!(back.blocks[0].load, Some(1));
        assert_eq!(back.blocks[0].color, Some([0xF8, 0xFC, 0xF8]));
        if version >= 1 {
            assert_eq!(back.blocks[0].position_in_bounds, [100, -5, 7]);
        } else {
            assert_eq!(back.blocks[0].position, [1f32.to_bits(), 0, 0]);
        }
    }
}

#[test]
fn roundtrip_metadata() {
    for version in [0u8, 3, 5, 6] {
        let mut m = empty_metadata();
        m.toggles = vec![true, false, true];
        m.values = vec![1f32.to_bits(), 2f32.to_bits()];
        m.fields = vec![vec![0, 1]];
        m.dropdowns = vec![3, 7];
        m.colors = vec![[0, 0, 0, 0xFF]];
        m.vectors = vec![[0, 0, 0]];
        let b = Building {
            roots: vec![root_at([0.0; 3], [0.0; 3], [1.0; 3])],
            blocks: vec![
                Block { metadata: Some(m), ..plain_block(0) },
                plain_block(0),
            ],
        };
        let back = roundtrip(&b, version);
        let bm = back.blocks[0].metadata.as_ref().expect("metadata");
        assert_eq!(bm.toggles, vec![true, false, true]);
        assert_eq!(bm.values, vec![1f32.to_bits(), 2f32.to_bits()]);
        assert_eq!(bm.fields, vec![vec![0, 1]]);
        assert_eq!(bm.dropdowns, vec![3, 7]);
    }
}

#[test]
fn dangling_references_drop_silently() {
    // the load and one connection name a block that is not in the snapshot
    let b = Building {
        roots: vec![root_at([0.0; 3], [0.0; 3], [1.0; 3])],
        blocks: vec![Block {
            connections: vec![99, 0],
            load: Some(77),
            ..plain_block(0)
        }],
    };
    let bytes = write_building(&b, 2).expect("encode");
    let back = read_building(&bytes).expect("decode");
    // only the self-reference to block 0 survives; the load is gone
    assert_eq!(back.blocks[0].connections, vec![0]);
    assert_eq!(back.blocks[0].load, None);

    // with every reference dangling, the has-connections and has-load flag
    // bits reflect the post-drop state
    let b2 = Building {
        roots: vec![root_at([0.0; 3], [0.0; 3], [1.0; 3])],
        blocks: vec![Block {
            connections: vec![99],
            load: Some(77),
            ..plain_block(0)
        }],
    };
    let bytes2 = write_building(&b2, 2).expect("encode");
    let back2 = read_building(&bytes2).expect("decode");
    assert_eq!(back2.blocks[0].connections, Vec::<u16>::new());
    assert_eq!(back2.blocks[0].load, None);
}

#[test]
fn duplicate_references_emitted_once() {
    // a repeated connection target and a repeated field-group member are
    // each emitted once, at their first occurrence
    let mut m = empty_metadata();
    m.fields = vec![vec![1, 1, 0]];
    let b = Building {
        roots: vec![root_at([0.0; 3], [0.0; 3], [1.0; 3])],
        blocks: vec![
            Block {
                connections: vec![0, 0, 1],
                metadata: Some(m),
                ..plain_block(0)
            },
            plain_block(0),
        ],
    };
    for version in [0u8, 2, 5] {
        let bytes = write_building(&b, version).expect("encode");
        let back = read_building(&bytes).expect("decode");
        assert_eq!(back.blocks[0].connections, vec![0, 1]);
        let bm = back.blocks[0].metadata.as_ref().expect("metadata");
        assert_eq!(bm.fields, vec![vec![1, 0]]);
    }
}

#[test]
fn empty_catalog_headers_rejected() {
    // an enabled catalog never has zero entries; such a header is not a
    // stream the encoder can produce
    assert_eq!(read_building(&[6, 0x00, 0xFF, 0xFF]).unwrap_err(), Error::InvalidData);
    assert_eq!(read_building(&[6, 0xFF, 0x00, 0x00]).unwrap_err(), Error::InvalidData);
}

#[test]
fn root_partitioning_recovered() {
    // roots with zero, one and many blocks, the empty one first
    let b = Building {
        roots: vec![
            root_at([0.0; 3], [0.0; 3], [1.0; 3]),
            root_at([1.0; 3], [0.0; 3], [1.0; 3]),
            root_at([2.0; 3], [0.0; 3], [1.0; 3]),
        ],
        blocks: vec![plain_block(1), plain_block(2), plain_block(2), plain_block(2)],
    };
    let back = roundtrip(&b, 2);
    let owners: Vec<u16> = back.blocks.iter().map(|blk| blk.root).collect();
    assert_eq!(owners, vec![1, 2, 2, 2]);

    // no blocks at all
    let b0 = Building { roots: vec![root_at([0.0; 3], [0.0; 3], [1.0; 3])], blocks: vec![] };
    let back0 = roundtrip(&b0, 2);
    assert_eq!(back0.blocks.len(), 0);
    assert_eq!(back0.roots.len(), 1);
}

#[test]
fn catalog_threshold() {
    // 1000 blocks sharing 10 distinct rotations: the catalog must be used,
    // with single-byte indices
    let mut blocks = Vec::new();
    for i in 0..1000u32 {
        let mut blk = plain_block(0);
        blk.rotation = [(i % 10) as u16, 0, 0];
        blocks.push(blk);
    }
    let b = Building { roots: vec![root_at([0.0; 3], [0.0; 3], [1.0; 3])], blocks };
    let bytes = write_building(&b, 6).expect("encode");
    // catalog section right after the version byte: color header, then the
    // two-byte rotation header
    assert_eq!(bytes[1], 0xFF, "no color catalog");
    let rot_header = u16::from_le_bytes([bytes[2], bytes[3]]);
    assert_eq!(rot_header, 10, "rotation catalog with ten entries");
    roundtrip(&b, 6);

    // 1000 distinct rotations: inline storage
    let mut blocks2 = Vec::new();
    for i in 0..1000u32 {
        let mut blk = plain_block(0);
        blk.rotation = [i as u16, 1, 2];
        blocks2.push(blk);
    }
    let b2 = Building { roots: vec![root_at([0.0; 3], [0.0; 3], [1.0; 3])], blocks: blocks2 };
    let bytes2 = write_building(&b2, 6).expect("encode");
    let rot_header2 = u16::from_le_bytes([bytes2[2], bytes2[3]]);
    assert_eq!(rot_header2, 0xFFFF, "catalog unused");
    roundtrip(&b2, 6);
}

#[test]
fn capacity_overflow_fails_not_truncates() {
    // 256 live connections under a one-byte count
    let mut blocks = Vec::new();
    for _ in 0..300 {
        blocks.push(plain_block(0));
    }
    blocks[0].connections = (0..256u16).collect();
    let b = Building { roots: vec![root_at([0.0; 3], [0.0; 3], [1.0; 3])], blocks };
    assert_eq!(write_building(&b, 6).unwrap_err(), Error::TooManyValues);
    assert_eq!(write_building(&b, 4).unwrap_err(), Error::TooManyValues);
    // the wide count of the early layouts still accepts it
    assert!(write_building(&b, 2).is_ok());
}

#[test]
fn unsupported_version_rejected() {
    let b = Building { roots: vec![], blocks: vec![] };
    assert_eq!(
        write_building(&b, 7).unwrap_err(),
        Error::UnsupportedVersion { version: 7 }
    );
    assert_eq!(
        read_building(&[9, 0, 0, 0, 0]).unwrap_err(),
        Error::UnsupportedVersion { version: 9 }
    );
    assert_eq!(read_building(&[]).unwrap_err(), Error::InvalidData);
}

#[test]
fn quantized_positions_recover_world_offset() {
    // one root at the origin, two blocks one unit apart on the first axis:
    // quantization against size (1,0,0) keeps the offset within one step
    let size = [1.0f32, 0.0, 0.0];
    let center = [0.5f32, 0.0, 0.0];
    let quantize = |v: f32, c: f32, s: f32| -> i16 {
        let s = if s == 0.0 { 1e-6 } else { s };
        ((v - c) / s * i16::MAX as f32).round() as i16
    };
    let b = Building {
        roots: vec![root_at([0.0; 3], center, size)],
        blocks: vec![
            Block {
                position_in_bounds: [quantize(0.0, center[0], size[0]), 0, 0],
                ..plain_block(0)
            },
            Block {
                position_in_bounds: [quantize(1.0, center[0], size[0]), 0, 0],
                ..plain_block(0)
            },
        ],
    };
    let back = roundtrip(&b, 2);
    let dequant = |q: i16, c: f32, s: f32| -> f32 { c + q as f32 * s / i16::MAX as f32 };
    let x0 = dequant(back.blocks[0].position_in_bounds[0], center[0], size[0]);
    let x1 = dequant(back.blocks[1].position_in_bounds[0], center[0], size[0]);
    let step = size[0] / i16::MAX as f32;
    assert!((x1 - x0 - 1.0).abs() <= step, "offset {} not within one step", x1 - x0);
}

#[test]
fn math_block_settings_roundtrip() {
    let mut m = empty_metadata();
    m.type_settings = TypeSettings::MathBlock {
        function: String::from("a+b"),
        incoming_connections_order: vec![0, 1],
        slots: vec![1, 0],
    };
    let mut blk = plain_block(0);
    blk.id = 129;
    blk.metadata = Some(m);
    let b = Building {
        roots: vec![root_at([0.0; 3], [0.0; 3], [1.0; 3])],
        blocks: vec![blk, plain_block(0)],
    };
    let back = roundtrip(&b, 2);
    match &back.blocks[0].metadata.as_ref().unwrap().type_settings {
        TypeSettings::MathBlock { function, incoming_connections_order, slots } => {
            assert_eq!(function, "a+b");
            assert_eq!(incoming_connections_order, &vec![0, 1]);
            assert_eq!(slots, &vec![1, 0]);
        }
        TypeSettings::Empty => panic!("settings lost"),
    }
}

#[test]
fn color_catalog_used_when_shared() {
    // many blocks sharing one color: single-byte catalog indices
    let mut blocks = Vec::new();
    for _ in 0..10 {
        let mut blk = plain_block(0);
        blk.color = Some([0xF8, 0x00, 0x00]);
        blocks.push(blk);
    }
    let b = Building { roots: vec![root_at([0.0; 3], [0.0; 3], [1.0; 3])], blocks };
    let bytes = write_building(&b, 6).expect("encode");
    assert_eq!(bytes[1], 1, "one color catalog entry");
    roundtrip(&b, 6);
}
