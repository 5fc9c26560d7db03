use didyoumean::download::progress_after;

#[test]
fn a_chunk_moves_the_position_on() {
    assert_eq!(progress_after(0, 512, 2048), 512);
    assert_eq!(progress_after(512, 512, 2048), 1024);
    assert_eq!(progress_after(1536, 512, 2048), 2048);
}

#[test]
fn the_position_never_passes_the_announced_size() {
    assert_eq!(progress_after(2000, 512, 2048), 2048);
    assert_eq!(progress_after(4096, 1, 2048), 2048);
    assert_eq!(progress_after(0, 1, 0), 0);
}

#[test]
fn an_empty_chunk_moves_nothing() {
    assert_eq!(progress_after(100, 0, 2048), 100);
}
