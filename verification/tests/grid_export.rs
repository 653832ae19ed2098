use schem::block::Block;
use schem::entity::BlockEntity;
use schem::grid::{GridError, Schematic};
use schem::tree::Tag;
use schem::utils::barrel_ss;
use schem::MC_1_18_2;

fn tree_fields(t: Tag) -> Vec<(String, Tag)> {
    match t {
        Tag::Compound(fields) => fields,
        _ => panic!("tree root is not a compound"),
    }
}

#[test]
fn new_grid_is_air() {
    let g = Schematic::new(MC_1_18_2, 1, 1, 1);
    let (palette, data) = g.encode_blocks();
    assert_eq!(palette, vec!["minecraft:air".to_string()]);
    assert_eq!(data, vec![0x00]);
}

#[test]
fn three_blocks_palette() {
    let mut g = Schematic::new(MC_1_18_2, 3, 3, 3);
    g.set_block(1, 0, 0, Block::from_str("minecraft:dirt").unwrap()).unwrap();
    g.set_block(0, 0, 1, Block::from_str("minecraft:stone").unwrap()).unwrap();
    g.set_block(0, 1, 0, Block::from_str("minecraft:grass_block").unwrap()).unwrap();

    let (palette, data) = g.encode_blocks();
    assert_eq!(palette.len(), 4);
    assert_eq!(
        palette,
        vec![
            "minecraft:air".to_string(),
            "minecraft:dirt".to_string(),
            "minecraft:stone".to_string(),
            "minecraft:grass_block".to_string(),
        ]
    );
    assert_eq!(data.len(), 27);
    assert_eq!(data[1], 1);
    assert_eq!(data[3], 2);
    assert_eq!(data[9], 3);
    assert_eq!(data.iter().map(|&b| b as usize).sum::<usize>(), 6);

    let fields = tree_fields(g.build_tree());
    assert_eq!(fields[6].0, "PaletteMax");
    assert!(matches!(fields[6].1, Tag::Int(3)));
    match &fields[8].1 {
        Tag::Bytes(bd) => assert_eq!(bd.len(), 27),
        _ => panic!("BlockData is not a byte sequence"),
    }
}

#[test]
fn palette_is_deterministic() {
    let build = || {
        let mut g = Schematic::new(MC_1_18_2, 3, 3, 3);
        g.set_block(2, 2, 2, Block::from_str("minecraft:dirt").unwrap()).unwrap();
        g.set_block(0, 0, 0, Block::from_str("minecraft:stone").unwrap()).unwrap();
        g.encode_blocks()
    };
    let (p1, d1) = build();
    let (p2, d2) = build();
    assert_eq!(p1, p2);
    assert_eq!(d1, d2);
}

#[test]
fn set_block_out_of_bounds_fails() {
    let mut g = Schematic::new(MC_1_18_2, 2, 2, 2);
    let before = g.encode_blocks();
    let r = g.set_block(2, 0, 0, Block::from_str("minecraft:dirt").unwrap());
    assert_eq!(r.unwrap_err(), GridError::OutOfBounds);
    assert_eq!(g.encode_blocks(), before);
}

#[test]
fn set_block_entity_out_of_bounds_fails() {
    let mut g = Schematic::new(MC_1_18_2, 2, 2, 2);
    let r = g.set_block_entity(0, 5, 0, BlockEntity::Barrel { items: barrel_ss(3) });
    assert_eq!(r.unwrap_err(), GridError::OutOfBounds);
}

#[test]
fn block_entity_appears_once_with_position() {
    let mut g = Schematic::new(MC_1_18_2, 4, 4, 4);
    g.set_block_entity(1, 2, 3, BlockEntity::Barrel { items: barrel_ss(1) }).unwrap();
    g.set_block_entity(1, 2, 3, BlockEntity::Barrel { items: barrel_ss(7) }).unwrap();

    let fields = tree_fields(g.build_tree());
    assert_eq!(fields[9].0, "BlockEntities");
    match &fields[9].1 {
        Tag::List(es) => {
            assert_eq!(es.len(), 1);
            match &es[0] {
                Tag::Compound(ec) => {
                    assert_eq!(ec[0].0, "Pos");
                    match &ec[0].1 {
                        Tag::IntArray(p) => assert_eq!(p, &vec![1, 2, 3]),
                        _ => panic!("Pos is not an int array"),
                    }
                }
                _ => panic!("entity is not a compound"),
            }
        }
        _ => panic!("BlockEntities is not a list"),
    }
}

#[test]
fn tree_scalars_match_grid() {
    let g = Schematic::new(100, 5, 6, 7);
    let fields = tree_fields(g.build_tree());
    assert_eq!(fields.len(), 10);
    assert_eq!(fields[0].0, "Version");
    assert!(matches!(fields[0].1, Tag::Int(2)));
    assert_eq!(fields[1].0, "DataVersion");
    assert!(matches!(fields[1].1, Tag::Int(100)));
    assert_eq!(fields[2].0, "Metadata");
    assert!(matches!(&fields[2].1, Tag::Compound(m) if m.is_empty()));
    assert_eq!(fields[3].0, "Width");
    assert!(matches!(fields[3].1, Tag::Short(5)));
    assert_eq!(fields[4].0, "Height");
    assert!(matches!(fields[4].1, Tag::Short(6)));
    assert_eq!(fields[5].0, "Length");
    assert!(matches!(fields[5].1, Tag::Short(7)));
    assert_eq!(fields[7].0, "Palette");
    match &fields[7].1 {
        Tag::Compound(pcs) => {
            assert_eq!(pcs.len(), 1);
            assert_eq!(pcs[0].0, "minecraft:air");
            assert!(matches!(pcs[0].1, Tag::Int(0)));
        }
        _ => panic!("Palette is not a compound"),
    }
}

#[test]
fn block_entities_keep_insertion_order() {
    let mut g = Schematic::new(MC_1_18_2, 4, 4, 4);
    g.set_block_entity(3, 0, 0, BlockEntity::Barrel { items: barrel_ss(2) }).unwrap();
    g.set_block_entity(0, 0, 3, BlockEntity::Barrel { items: barrel_ss(4) }).unwrap();

    let fields = tree_fields(g.build_tree());
    match &fields[9].1 {
        Tag::List(es) => {
            assert_eq!(es.len(), 2);
            let pos = |e: &Tag| -> Vec<i32> {
                match e {
                    Tag::Compound(ec) => match &ec[0].1 {
                        Tag::IntArray(p) => p.clone(),
                        _ => panic!("Pos is not an int array"),
                    },
                    _ => panic!("entity is not a compound"),
                }
            };
            assert_eq!(pos(&es[0]), vec![3, 0, 0]);
            assert_eq!(pos(&es[1]), vec![0, 0, 3]);
        }
        _ => panic!("BlockEntities is not a list"),
    }
}

#[test]
fn large_palette_uses_two_byte_varints() {
    let mut g = Schematic::new(MC_1_18_2, 132, 1, 1);
    for x in 0..132usize {
        let b = Block::from_str(&format!("m[p={x}]")).unwrap();
        g.set_block(x, 0, 0, b).unwrap();
    }
    let (palette, data) = g.encode_blocks();
    assert_eq!(palette.len(), 132);
    // indices 0..=127 take one byte each, 128..=131 take two
    assert_eq!(data.len(), 128 + 2 * 4);
    assert_eq!(&data[132..134], &[0x82, 0x01]);
}

#[test]
fn barrel_ss_formula() {
    assert_eq!(barrel_ss(0).len(), 0);
    assert_eq!(barrel_ss(1).len(), 1);
    assert_eq!(barrel_ss(15).len(), 27);
}

#[test]
fn barrel_ss_slot_contents() {
    let items = barrel_ss(2);
    assert_eq!(items.len(), 2);
    for (i, slot) in items.iter().enumerate() {
        assert_eq!(slot.id, "minecraft:redstone_block");
        assert_eq!(slot.count, 64);
        assert_eq!(slot.slot, i as i8);
        assert!(matches!(&slot.extra, Tag::Compound(c) if c.is_empty()));
    }
}
