use yave::render::arena::{next_power_of_two, ArenaBuffer};
use yave::render::mesh::{visible_vertices, ChunkSlot, DrawCommand, IB_ALIGN, VB_ALIGN};

#[test]
fn allocations_do_not_overlap() {
    let mut a = ArenaBuffer::new(360, VB_ALIGN);
    assert_eq!(a.allocate(36), Some(0));
    assert_eq!(a.allocate(40), Some(36));
    assert_eq!(a.allocate(1), Some(108));
    assert_eq!(a.allocate(360), None);
    assert_eq!(a.allocate(216), Some(144));
    assert_eq!(a.allocate(1), None);
    assert_eq!(a.allocate(0), Some(0));
}

#[test]
fn freed_bytes_are_joined() {
    let mut a = ArenaBuffer::new(400, IB_ALIGN);
    let x = a.allocate(100).unwrap();
    let y = a.allocate(100).unwrap();
    let z = a.allocate(100).unwrap();
    assert_eq!((x, y, z), (0, 100, 200));
    a.free(x, 100);
    a.free(z, 100);
    assert_eq!(a.allocate(200), Some(200));
    a.free(200, 200);
    a.free(y, 100);
    assert_eq!(a.allocate(400), Some(0));
}

#[test]
fn freeing_undoes_allocating() {
    let mut a = ArenaBuffer::new(1000, VB_ALIGN);
    let first = a.allocate(500).unwrap();
    let x = a.allocate(70).unwrap();
    a.free(x, 70);
    assert_eq!(a.allocate(70), Some(x));
    a.free(x, 70);
    a.free(first, 500);
    assert_eq!(a.allocate(972), Some(0));
}

#[test]
fn the_first_run_that_fits_is_taken() {
    let mut a = ArenaBuffer::new(100, 1);
    for i in 0..10 {
        assert_eq!(a.allocate(10), Some(10 * i));
    }
    a.free(20, 10);
    a.free(50, 20);
    assert_eq!(a.allocate(15), Some(50));
    assert_eq!(a.allocate(5), Some(20));
    assert_eq!(a.allocate(5), Some(25));
    assert_eq!(a.allocate(5), Some(65));
}

#[test]
fn growing_adds_free_bytes() {
    let mut a = ArenaBuffer::new(100, VB_ALIGN);
    assert_eq!(a.allocate(72), Some(0));
    assert_eq!(a.allocate(36), None);
    assert_eq!(a.grown_cap(0), None);
    assert_eq!(a.grown_cap(1), Some(200));
    assert_eq!(a.grown_cap(90), Some(256));
    assert_eq!(a.grown_cap(130), Some(256));
    assert_eq!(a.grown_cap(157), Some(512));
    a.grow(200);
    assert_eq!(a.cap(), 200);
    assert_eq!(a.allocate(108), Some(72));
    assert_eq!(a.allocate(1), None);
    a.ensure_cap(10);
    assert_eq!(a.cap(), 400);
    assert_eq!(a.allocate(180), Some(180));
    a.ensure_cap(0);
    assert_eq!(a.cap(), 400);
    a.ensure_cap(200);
    assert_eq!(a.cap(), 1024);
    assert_eq!(a.allocate(612), Some(360));
}

#[test]
fn powers_of_two() {
    assert_eq!(next_power_of_two(0), 1);
    assert_eq!(next_power_of_two(1), 1);
    assert_eq!(next_power_of_two(5), 8);
    assert_eq!(next_power_of_two(64), 64);
    assert_eq!(next_power_of_two(1 << 63), 1 << 63);
}

#[test]
fn slots_and_commands() {
    let s = ChunkSlot::new(72, 100, 40, 12);
    assert_eq!(s.vertex_base, 2);
    assert_eq!(s.first_index, 10);
    assert_eq!(s.ib_size, 48);
    assert_eq!(s.index_count, 12);
    let d = DrawCommand::of(s);
    assert_eq!(
        d,
        DrawCommand {
            index_count: 12,
            instance_count: 1,
            first_index: 10,
            vertex_offset: 2,
            first_instance: 0
        }
    );
    assert_eq!(visible_vertices(&vec![d, d]), 16);
    assert_eq!(visible_vertices(&vec![]), 0);
}
