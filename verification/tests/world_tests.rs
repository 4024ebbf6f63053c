use voxel_world::block::Block;
use voxel_world::chunk::Chunk;
use voxel_world::world::{generate_chunks_sequential, ClientConnection, World, WorldError};

/// Read the block at world cell (x, y) through the public chunk accessors.
fn block_at(w: &World, x: u32, y: u32) -> Block {
    let (cx, cy) = w.get_chunk_block_is_in(x, y).unwrap();
    let chunk = w.get_chunk(cx, cy).unwrap();
    let lx = x - cx * w.chunk_size;
    let ly = y - cy * w.chunk_size;
    chunk.blocks[(ly * chunk.size + lx) as usize]
}

fn assert_same_chunk(a: &Chunk, b: &Chunk) {
    assert_eq!(a.size, b.size);
    assert_eq!(a.chunk_x, b.chunk_x);
    assert_eq!(a.chunk_y, b.chunk_y);
    assert_eq!(a.blocks, b.blocks);
}

#[test]
fn construction_rejects_mismatched_dimensions() {
    assert!(matches!(
        World::generate_empty(5, 4, 2),
        Err(WorldError::MismatchedChunkSize)
    ));
    assert!(matches!(
        World::generate_empty(4, 5, 2),
        Err(WorldError::MismatchedChunkSize)
    ));
    assert!(matches!(
        World::generate_flat(6, 4, 4, 1),
        Err(WorldError::MismatchedChunkSize)
    ));
}

#[test]
fn empty_world_chunk_grid_layout() {
    let w = World::generate_empty(8, 8, 4).unwrap();
    assert_eq!(w.width_chunks, 2);
    assert_eq!(w.height_chunks, 2);
    assert_eq!(w.chunks.len(), 4);
    assert_eq!(w.player_loaded.len(), 4);
    assert!(w.players.is_empty());
    for (i, chunk) in w.chunks.iter().enumerate() {
        let i = i as u32;
        assert_eq!(chunk.chunk_x, i % 2);
        assert_eq!(chunk.chunk_y, i / 2);
        assert_eq!(chunk.size, 4);
        assert_eq!(chunk.blocks.len(), 16);
        assert!(chunk.blocks.iter().all(|b| *b == Block::Air));
    }
    for subs in &w.player_loaded {
        assert!(subs.is_empty());
    }
}

#[test]
fn empty_world_with_zero_width_has_no_chunks() {
    let w = World::generate_empty(0, 4, 2).unwrap();
    assert_eq!(w.chunks.len(), 0);
    assert_eq!(w.player_loaded.len(), 0);
}

#[test]
fn parallel_generation_matches_sequential() {
    let w = World::generate_empty(8, 12, 4).unwrap();
    let sequential = generate_chunks_sequential(4, 2, 6);
    assert_eq!(w.chunks.len(), sequential.len());
    for (a, b) in w.chunks.iter().zip(sequential.iter()) {
        assert_same_chunk(a, b);
    }
}

#[test]
fn get_chunk_bounds() {
    let w = World::generate_empty(8, 8, 4).unwrap();
    assert!(w.get_chunk(0, 0).is_ok());
    assert!(w.get_chunk(1, 1).is_ok());
    assert!(matches!(w.get_chunk(2, 0), Err(WorldError::OutOfBounds(2, 0))));
    assert!(matches!(w.get_chunk(0, 2), Err(WorldError::OutOfBounds(0, 2))));
}

#[test]
fn get_chunk_mut_gives_exclusive_access() {
    let mut w = World::generate_empty(8, 8, 4).unwrap();
    {
        let chunk = w.get_chunk_mut(1, 0).unwrap();
        chunk.set_block(0, 0, Block::Wood);
    }
    assert_eq!(block_at(&w, 4, 0), Block::Wood);
    assert!(matches!(
        w.get_chunk_mut(3, 0),
        Err(WorldError::OutOfBounds(3, 0))
    ));
}

#[test]
fn get_chunk_block_is_in_resolves_cells() {
    let w = World::generate_empty(8, 8, 4).unwrap();
    assert_eq!(w.get_chunk_block_is_in(0, 0).unwrap(), (0, 0));
    assert_eq!(w.get_chunk_block_is_in(5, 5).unwrap(), (1, 1));
    assert_eq!(w.get_chunk_block_is_in(3, 7).unwrap(), (0, 1));
    assert!(matches!(
        w.get_chunk_block_is_in(8, 0),
        Err(WorldError::OutOfBounds(8, 0))
    ));
    assert!(matches!(
        w.get_chunk_block_is_in(0, 9),
        Err(WorldError::OutOfBounds(0, 9))
    ));
}

#[test]
fn set_block_resolves_chunk_and_slot() {
    let mut w = World::generate_empty(8, 8, 4).unwrap();
    w.set_block(5, 5, Block::Stone).unwrap();
    let chunk = w.get_chunk(1, 1).unwrap();
    assert_eq!(chunk.blocks[(1 * 4 + 1) as usize], Block::Stone);
    let mut stone_cells = 0;
    for x in 0..8 {
        for y in 0..8 {
            let b = block_at(&w, x, y);
            if (x, y) == (5, 5) {
                assert_eq!(b, Block::Stone);
            } else {
                assert_eq!(b, Block::Air);
            }
            if b == Block::Stone {
                stone_cells += 1;
            }
        }
    }
    assert_eq!(stone_cells, 1);
}

#[test]
fn set_block_rejects_out_of_bounds_cells() {
    let mut w = World::generate_empty(8, 8, 4).unwrap();
    assert!(matches!(
        w.set_block(8, 0, Block::Stone),
        Err(WorldError::OutOfBounds(8, 0))
    ));
    assert!(matches!(
        w.set_block(0, 8, Block::Stone),
        Err(WorldError::OutOfBounds(0, 8))
    ));
    for x in 0..8 {
        for y in 0..8 {
            assert_eq!(block_at(&w, x, y), Block::Air);
        }
    }
}

#[test]
fn generate_flat_scenario() {
    let w = World::generate_flat(4, 4, 2, 2).unwrap();
    for x in 0..4 {
        assert_eq!(block_at(&w, x, 0), Block::Stone);
        assert_eq!(block_at(&w, x, 1), Block::Air);
        assert_eq!(block_at(&w, x, 2), Block::Grass);
        assert_eq!(block_at(&w, x, 3), Block::Air);
    }
}

#[test]
fn generate_flat_grass_level_zero_skips_stone() {
    let w = World::generate_flat(4, 4, 2, 0).unwrap();
    for x in 0..4 {
        assert_eq!(block_at(&w, x, 0), Block::Grass);
        for y in 1..4 {
            assert_eq!(block_at(&w, x, y), Block::Air);
        }
    }
}

#[test]
fn generate_flat_rejects_grass_level_outside_world() {
    assert!(matches!(
        World::generate_flat(4, 4, 2, 4),
        Err(WorldError::OutOfBounds(0, 4))
    ));
    assert!(matches!(
        World::generate_flat(4, 4, 2, 5),
        Err(WorldError::OutOfBounds(0, 5))
    ));
    assert!(matches!(
        World::generate_flat(4, 4, 2, 6),
        Err(WorldError::OutOfBounds(0, 4))
    ));
}

#[test]
fn mark_chunk_loaded_twice_rejected() {
    let mut w = World::generate_empty(8, 8, 4).unwrap();
    w.players.push(ClientConnection { id: 1 });
    assert!(w.mark_chunk_loaded_by_id(0, 0, 1).is_ok());
    assert_eq!(w.get_list_of_players_loading_chunk(0, 0).unwrap().len(), 1);
    assert!(matches!(
        w.mark_chunk_loaded_by_id(0, 0, 1),
        Err(WorldError::ChunkAlreadyLoaded)
    ));
    assert_eq!(w.get_list_of_players_loading_chunk(0, 0).unwrap().len(), 1);
}

#[test]
fn mark_chunk_loaded_out_of_bounds() {
    let mut w = World::generate_empty(8, 8, 4).unwrap();
    assert!(matches!(
        w.mark_chunk_loaded_by_id(5, 5, 1),
        Err(WorldError::OutOfBounds(5, 5))
    ));
}

#[test]
fn mark_chunk_loaded_for_unknown_player_is_a_noop() {
    let mut w = World::generate_empty(8, 8, 4).unwrap();
    {
        let chunk = w.mark_chunk_loaded_by_id(1, 0, 99).unwrap();
        assert_eq!(chunk.chunk_x, 1);
        assert_eq!(chunk.chunk_y, 0);
        assert_eq!(chunk.size, 4);
    }
    assert!(w.get_list_of_players_loading_chunk(1, 0).unwrap().is_empty());
}

#[test]
fn unmark_removes_subscriber_and_tolerates_absent_ids() {
    let mut w = World::generate_empty(8, 8, 4).unwrap();
    w.players.push(ClientConnection { id: 3 });
    w.mark_chunk_loaded_by_id(0, 1, 3).unwrap();
    assert_eq!(w.get_list_of_players_loading_chunk(0, 1).unwrap().len(), 1);
    assert!(w.unmark_loaded_chunk_for(0, 1, 3).is_ok());
    assert!(w.get_list_of_players_loading_chunk(0, 1).unwrap().is_empty());
    // Removing an id that is not subscribed is a silent no-op.
    assert!(w.unmark_loaded_chunk_for(0, 1, 3).is_ok());
    assert!(w.unmark_loaded_chunk_for(0, 0, 42).is_ok());
    assert!(matches!(
        w.unmark_loaded_chunk_for(9, 0, 3),
        Err(WorldError::OutOfBounds(9, 0))
    ));
}

#[test]
fn unload_all_clears_player_everywhere() {
    let mut w = World::generate_empty(8, 8, 4).unwrap();
    w.players.push(ClientConnection { id: 1 });
    w.players.push(ClientConnection { id: 2 });
    w.mark_chunk_loaded_by_id(0, 0, 1).unwrap();
    w.mark_chunk_loaded_by_id(1, 1, 1).unwrap();
    w.mark_chunk_loaded_by_id(0, 0, 2).unwrap();
    w.unload_all_for(1);
    for cx in 0..2 {
        for cy in 0..2 {
            let loading = w.get_list_of_players_loading_chunk(cx, cy).unwrap();
            assert!(loading.iter().all(|p| p.id != 1));
        }
    }
    // The other subscriber is untouched.
    let loading = w.get_list_of_players_loading_chunk(0, 0).unwrap();
    assert_eq!(loading.len(), 1);
    assert_eq!(loading[0].id, 2);
}

#[test]
fn listed_players_resolve_in_player_order() {
    let mut w = World::generate_empty(8, 8, 4).unwrap();
    w.players.push(ClientConnection { id: 5 });
    w.players.push(ClientConnection { id: 6 });
    w.mark_chunk_loaded_by_id(0, 0, 6).unwrap();
    w.mark_chunk_loaded_by_id(0, 0, 5).unwrap();
    let loading = w.get_list_of_players_loading_chunk(0, 0).unwrap();
    assert_eq!(loading.len(), 2);
    assert_eq!(loading[0].id, 6);
    assert_eq!(loading[1].id, 5);
    assert!(matches!(
        w.get_list_of_players_loading_chunk(2, 2),
        Err(WorldError::OutOfBounds(2, 2))
    ));
}

#[test]
fn tick_leaves_world_unchanged() {
    let mut w = World::generate_flat(4, 4, 2, 2).unwrap();
    w.players.push(ClientConnection { id: 1 });
    w.mark_chunk_loaded_by_id(0, 0, 1).unwrap();
    w.tick();
    assert_eq!(block_at(&w, 0, 0), Block::Stone);
    assert_eq!(block_at(&w, 0, 2), Block::Grass);
    assert_eq!(w.get_list_of_players_loading_chunk(0, 0).unwrap().len(), 1);
}
