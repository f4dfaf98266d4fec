use fop_verified::area::AreaId;
use fop_verified::error::FopError;
use fop_verified::pagination::migrate_blocks;
use fop_verified::pdf_font::{FontManager, PdfFont};
use fop_verified::{Area, AreaTree, AreaType, Length, Rect};

fn empty_rect() -> Rect {
    Rect::new(Length::zero(), Length::zero(), Length::zero(), Length::zero())
}

fn message(e: FopError) -> String {
    match e {
        FopError::Generic(m) => m,
    }
}

#[test]
fn test_unparsable_font_error_names_the_cause() {
    let err = PdfFont::from_ttf_data(vec![0u8; 8]).err().unwrap();
    assert!(message(err).starts_with("Failed to parse TTF: "));
    let mut manager = FontManager::new();
    let err = manager.embed_font(vec![1, 2, 3]).err().unwrap();
    assert!(message(err).starts_with("Failed to parse TTF: "));
}

#[test]
fn test_append_child_error_messages() {
    let mut tree = AreaTree::new();
    let a = tree.add_area(Area::new(AreaType::Block, empty_rect()));
    let b = tree.add_area(Area::new(AreaType::Block, empty_rect()));
    assert_eq!(tree.append_child(AreaId(9), b), Err("parent area not found".to_string()));
    assert_eq!(tree.append_child(a, AreaId(9)), Err("child area not found".to_string()));
    assert_eq!(tree.append_child(a, b), Ok(()));
    assert_eq!(tree.append_child(a, b), Err("child area already has a parent".to_string()));
}

#[test]
fn test_reparent_error_messages() {
    let mut tree = AreaTree::new();
    let a = tree.add_area(Area::new(AreaType::Block, empty_rect()));
    assert_eq!(tree.reparent(a, AreaId(5)), Err("parent area not found".to_string()));
    assert_eq!(tree.reparent(AreaId(5), a), Err("child area not found".to_string()));
}

#[test]
fn test_migrate_blocks_error_message() {
    let mut tree = AreaTree::new();
    let a = tree.add_area(Area::new(AreaType::Block, empty_rect()));
    let err = migrate_blocks(&mut tree, &[a], AreaId(7)).err().unwrap();
    assert_eq!(message(err), "parent area not found");
}
