use yave::export::{
    draw_profile, flatten, height_range, pixel_to_world, terrain_color, ProfileColumn,
};
use yave::input::{Input, InputAction, InputEvent, Key};
use yave::render::pass::{
    frame_steps, outline_corner, outline_indices, shader_words, PassStep,
};
use yave::render::select::{
    choose_extent, choose_format, choose_present_mode, choose_surface_format, find_memory_type,
    find_queue_families, image_count, pick_physical_device, unique_families, worker_threads,
    DeviceChoice, Extent, PresentMode, QueueFamily, SurfaceCaps, SurfaceFormat, COLOR_SPACE_SRGB,
    FORMAT_BGRA_SRGB,
};
use yave::render::texture::{layer_file, odd_layer, pack_layers, placeholder, Layer};
use yave::settings::{parse, render, Settings};
use yave::stats::frame_stats;
use yave::world::block::{TEX_DIRT, TEX_GRASS_SIDE, TEX_GRASS_TOP, TEX_STONE};

fn read(text: &str) -> (i32, i32, i32, Vec<String>) {
    let r = parse(text);
    let unknown = r.unknown.iter().map(|k| k.iter().collect()).collect();
    (r.settings.lod0, r.settings.lod1, r.settings.lod2, unknown)
}

#[test]
fn bands_add_up() {
    let s = Settings::default();
    assert_eq!((s.lod0, s.lod1, s.lod2), (20, 60, 0));
    let t = Settings { lod0: 3, lod1: 4, lod2: 5 };
    assert_eq!(t.render_distance(), 12);
    assert_eq!(t.lod1_dist(), 3);
    assert_eq!(t.lod2_dist(), 7);
}

#[test]
fn settings_are_read() {
    assert_eq!(read(""), (20, 60, 0, vec![]));
    assert_eq!(read("lod0 = 5\nlod1=7\r\n  lod2\t= +9  \n"), (5, 7, 9, vec![]));
    assert_eq!(read("# lod0 = 5\n\nlod1 = -3"), (20, -3, 0, vec![]));
    assert_eq!(read("lod0 = 1\nlod0 = 2\n"), (2, 60, 0, vec![]));
    assert_eq!(read("fog = 4\nlod3 = x"), (20, 60, 0, vec!["fog".to_string()]));
    assert_eq!(read("lod0 = 1 = 2\nlod1 = \nlod2 = 1x\nlod0\n"), (20, 60, 0, vec![]));
    assert_eq!(read("lod0 = 2147483647\nlod1 = -2147483648"), (i32::MAX, i32::MIN, 0, vec![]));
    assert_eq!(read("lod0 = 2147483648\nlod1 = -2147483649"), (20, 60, 0, vec![]));
    assert_eq!(read("lod0 = +\nlod1 = -\n\u{3000}lod2 = 8\u{a0}"), (20, 60, 8, vec![]));
}

#[test]
fn settings_are_read_back() {
    let text: String = render(&Settings::default()).iter().collect();
    assert_eq!(text, "# YAVE render distance settings\nlod0 = 20\nlod1 = 60\nlod2 = 0\n");
    for n in [0, 7, -1, 10, 12345, i32::MAX, i32::MIN] {
        let s = Settings { lod0: n, lod1: 5, lod2: -n.wrapping_abs().max(-9) };
        let text: String = render(&s).iter().collect();
        let r = parse(&text);
        assert_eq!(r.settings, s);
        assert!(r.unknown.is_empty());
    }
}

#[test]
fn frames_in_short() {
    assert!(frame_stats(&vec![]).is_none());
    let one = frame_stats(&vec![7]).unwrap();
    assert_eq!((one.count, one.average, one.p1, one.p99), (1, 7, 7, 7));
    let times: Vec<u32> = (0..200).rev().collect();
    let s = frame_stats(&times).unwrap();
    assert_eq!(s.count, 200);
    assert_eq!(s.average, 99);
    assert_eq!((s.shortest, s.longest), (0, 199));
    assert_eq!((s.p1, s.p99), (2, 198));
}

#[test]
fn map_colors() {
    assert_eq!(terrain_color(120, true), [120, 180, 230]);
    assert_eq!(terrain_color(130, true), [120, 180, 230]);
    assert_eq!(terrain_color(115, true), [55, 120, 195]);
    assert_eq!(terrain_color(105, true), [30, 80, 160]);
    assert_eq!(terrain_color(1, true), [12, 40, 110]);
    assert_eq!(terrain_color(125, false), [215, 205, 135]);
    assert_eq!(terrain_color(126, false), [95, 155, 65]);
    assert_eq!(terrain_color(161, false), [85, 120, 55]);
    assert_eq!(terrain_color(221, false), [105, 100, 80]);
    assert_eq!(terrain_color(301, false), [225, 225, 225]);
}

#[test]
fn pixels_show_places() {
    assert_eq!(pixel_to_world(0, 4, 6, 100, -50), (88, -62));
    assert_eq!(pixel_to_world(6, 4, 6, 100, -50), (100, -56));
    assert_eq!(pixel_to_world(15, 4, 1, 0, 0), (1, 1));
    assert_eq!(height_range(&vec![5, 9, 2]), (2, 9));
    assert_eq!(height_range(&vec![]), (usize::MAX, 0));
    assert_eq!(flatten(&vec![[1, 2, 3], [4, 5, 6]]), vec![1, 2, 3, 4, 5, 6]);
}

#[test]
fn profiles_show_both_surfaces() {
    let c = vec![
        ProfileColumn { natural: 3, cliff: 1 },
        ProfileColumn { natural: 2, cliff: 2 },
        ProfileColumn { natural: 9, cliff: 9 },
    ];
    let p = draw_profile(&c, 0, 5);
    let column = |x: usize| -> Vec<[u8; 3]> { (0..5).map(|y| p[y * 3 + x]).collect() };
    let (sea, cliff, added) = ([40, 60, 90], [230, 70, 70], [70, 30, 30]);
    let (line, ground, sky) = ([150, 150, 160], [55, 55, 60], [0, 0, 0]);
    assert_eq!(column(0), vec![sea, cliff, added, line, ground]);
    assert_eq!(column(1), vec![sea, sky, cliff, ground, ground]);
    assert_eq!(column(2), vec![sea, sky, sky, sky, cliff]);
}

#[test]
fn formats_and_modes() {
    assert_eq!(FORMAT_BGRA_SRGB, ash::vk::Format::B8G8R8A8_SRGB.as_raw());
    assert_eq!(COLOR_SPACE_SRGB, ash::vk::ColorSpaceKHR::SRGB_NONLINEAR.as_raw());
    let other = SurfaceFormat { format: 44, color_space: 0 };
    let best = SurfaceFormat { format: FORMAT_BGRA_SRGB, color_space: COLOR_SPACE_SRGB };
    assert_eq!(choose_format(&vec![other, best]), best);
    assert_eq!(choose_format(&vec![other]), other);
    assert_eq!(choose_surface_format(&vec![other]), 44);
    assert_eq!(choose_surface_format(&vec![other, best]), FORMAT_BGRA_SRGB);
    assert_eq!(
        choose_present_mode(&vec![PresentMode::Fifo, PresentMode::Mailbox]),
        PresentMode::Mailbox
    );
    assert_eq!(
        choose_present_mode(&vec![PresentMode::Mailbox, PresentMode::Immediate]),
        PresentMode::Immediate
    );
    assert_eq!(choose_present_mode(&vec![PresentMode::Other]), PresentMode::Fifo);
}

#[test]
fn surfaces() {
    let none = Extent { width: u32::MAX, height: u32::MAX };
    let mut caps = SurfaceCaps {
        current: Extent { width: 7, height: 8 },
        min: Extent { width: 10, height: 10 },
        max: Extent { width: 100, height: 50 },
        min_images: 2,
        max_images: 0,
    };
    assert_eq!(choose_extent(&caps, 1, 1), Extent { width: 7, height: 8 });
    assert_eq!(image_count(&caps), 3);
    caps.current = none;
    caps.max_images = 2;
    assert_eq!(choose_extent(&caps, 1, 77), Extent { width: 10, height: 50 });
    assert_eq!(choose_extent(&caps, 60, 40), Extent { width: 60, height: 40 });
    assert_eq!(image_count(&caps), 2);
}

#[test]
fn memory_and_queues() {
    assert_eq!(find_memory_type(0b110, &vec![3, 1, 3], 3), Some(2));
    assert_eq!(find_memory_type(0b010, &vec![3, 1, 3], 3), None);
    assert_eq!(find_memory_type(0b111, &vec![1, 7], 0b110), Some(1));
    let f = |graphics: bool, present: bool| QueueFamily { graphics, present };
    assert_eq!(find_queue_families(&vec![f(true, true)]), Some((0, 0)));
    assert_eq!(
        find_queue_families(&vec![f(true, false), f(true, false), f(false, true), f(true, true)]),
        Some((1, 2))
    );
    assert_eq!(find_queue_families(&vec![f(true, false)]), None);
    let d = |suitable: bool, discrete: bool| DeviceChoice { suitable, discrete };
    assert_eq!(pick_physical_device(&vec![d(true, false), d(true, true), d(true, true)]), Some(1));
    assert_eq!(pick_physical_device(&vec![d(true, false), d(true, false), d(false, true)]), Some(1));
    assert_eq!(pick_physical_device(&vec![d(false, true)]), None);
    assert_eq!(unique_families(3, 3), vec![3]);
    assert_eq!(unique_families(3, 4), vec![3, 4]);
    assert_eq!(worker_threads(1), 1);
    assert_eq!(worker_threads(3), 1);
    assert_eq!(worker_threads(16), 14);
}

#[test]
fn texture_layers() {
    assert_eq!(layer_file(TEX_STONE), "Stone.png");
    assert_eq!(layer_file(TEX_DIRT), "Dirt.png");
    assert_eq!(layer_file(TEX_GRASS_TOP), "Grass_Top.png");
    assert_eq!(layer_file(TEX_GRASS_SIDE), "Grass_Side.png");
    let p = placeholder(TEX_DIRT);
    assert_eq!((p.width, p.height, p.pixels.len()), (24, 24, 2304));
    assert_eq!(&p.pixels[4..8], &[101, 67, 33, 255]);
    let layer = |w: u32, n: u8| Layer { width: w, height: 1, pixels: vec![n; 4 * w as usize] };
    assert_eq!(odd_layer(&vec![layer(1, 0), layer(1, 1), layer(2, 2)]), Some(2));
    let layers = vec![layer(1, 5), layer(1, 6)];
    assert_eq!(odd_layer(&layers), None);
    assert_eq!(pack_layers(&layers, 4), vec![5, 5, 5, 5, 6, 6, 6, 6]);
}

#[test]
fn parts_of_a_frame() {
    assert_eq!(
        frame_steps(Some(3), Some(2), true),
        vec![PassStep::Ground(3), PassStep::Water(2), PassStep::Outline, PassStep::Crosshair]
    );
    assert_eq!(frame_steps(Some(0), Some(2), false), vec![PassStep::Crosshair]);
    assert_eq!(frame_steps(None, Some(2), false), vec![PassStep::Crosshair]);
    assert_eq!(frame_steps(Some(3), Some(0), false), vec![PassStep::Ground(3), PassStep::Crosshair]);
    assert_eq!(outline_corner(6), (true, true, true));
    assert_eq!(outline_corner(3), (false, true, false));
    assert_eq!(&outline_indices()[16..20], &[0, 4, 1, 5]);
    assert_eq!(shader_words(&vec![1, 2, 0, 255, 9]), vec![0xff000201]);
}

#[test]
fn clicks_and_keys() {
    let mut i = Input::new();
    assert!(!i.on_device_event());
    assert_eq!(i.on_window_event(InputEvent::MousePressed), InputAction::Grab);
    assert!(i.on_device_event());
    assert_eq!(i.on_window_event(InputEvent::Key(Key::Escape, false)), InputAction::Nothing);
    assert!(i.on_device_event());
    assert_eq!(i.on_window_event(InputEvent::Key(Key::Escape, true)), InputAction::Release);
    assert!(!i.on_device_event());
    i.on_window_event(InputEvent::MousePressed);
    assert_eq!(i.on_window_event(InputEvent::FocusLost), InputAction::Release);
    assert!(!i.on_device_event());
    assert_eq!(i.on_window_event(InputEvent::Key(Key::DownLeft, true)), InputAction::Nothing);
    assert_eq!(i.on_window_event(InputEvent::Key(Key::DownRight, true)), InputAction::Nothing);
    i.on_window_event(InputEvent::Key(Key::DownLeft, false));
    i.on_window_event(InputEvent::Key(Key::Forward, true));
    let go = i.movement();
    assert!(go.down && go.forward && !go.back && !go.left && !go.right && !go.up);
    i.on_window_event(InputEvent::Key(Key::DownRight, false));
    assert!(!i.movement().down);
    assert_eq!(i.on_window_event(InputEvent::Resized(4, 0)), InputAction::Nothing);
    assert_eq!(i.on_window_event(InputEvent::Resized(4, 5)), InputAction::Resize(4, 5));
    assert_eq!(i.on_window_event(InputEvent::CloseRequested), InputAction::Exit);
    assert_eq!(i.on_window_event(InputEvent::RedrawRequested), InputAction::Draw);
    assert_eq!(i.on_window_event(InputEvent::Scrolled), InputAction::Speed);
    assert_eq!(i.on_window_event(InputEvent::Other), InputAction::Nothing);
}
