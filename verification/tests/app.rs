use engine::app::Options;
use engine::perf_probe::Overlay;
use engine::scene::{TerrainId, TileSet};

#[test]
fn the_default_window_is_720p_with_vsync_until_closed() {
    let o = Options::default();
    assert_eq!((o.width, o.height), (1280, 720));
    assert_eq!(o.frames, None);
    assert!(o.vsync);
}

#[test]
fn tile_sets_compare_by_handle() {
    assert_eq!(TileSet::Loaded(TerrainId(2)), TileSet::Loaded(TerrainId(2)));
    assert_ne!(TileSet::Loaded(TerrainId(2)), TileSet::Loaded(TerrainId(3)));
    assert_ne!(TileSet::Smooth, TileSet::Loaded(TerrainId(0)));
    assert!(Overlay::EmptyUi != Overlay::Panel && Overlay::NoUi != Overlay::Panel);
}
