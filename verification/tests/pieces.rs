use btleech::client::{Block, Piece, Status};

fn create_test_blocks() -> Vec<Block> {
    (0..10).map(|offset| Block::new(0, offset * 10, 10)).collect()
}

#[test]
fn test_empty_piece() {
    let mut p = Piece::new(0, vec![], "".to_string());
    assert_eq!(p.next_request(), None);
}

#[test]
fn test_request_ok() {
    let blocks = create_test_blocks();
    let mut p = Piece::new(0, blocks, "".to_string());

    let block = p.next_request().expect("should return a block");
    let missing = p.blocks.iter().filter(|b| b.status == Status::Missing).count();
    let pending = p.blocks.iter().filter(|b| b.status == Status::Pending).count();

    assert_eq!(pending, 1);
    assert_eq!(missing, 9);
    assert_eq!(block.offset, 0);
}

#[test]
fn test_reset_missing_block() {
    let mut p = Piece::new(0, vec![], "".to_string());
    p.block_received(123, b"hello".to_vec());
}

#[test]
fn test_reset_block() {
    let blocks = create_test_blocks();
    let mut p = Piece::new(0, blocks, "".to_string());

    p.block_received(10, b"hello".to_vec());

    let retrieved = p.blocks.iter().filter(|b| b.status == Status::Retrieved).count();
    let missing = p.blocks.iter().filter(|b| b.status == Status::Missing).count();

    assert_eq!(retrieved, 1);
    assert_eq!(missing, 9);
}
