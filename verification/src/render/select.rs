//! Choosing among what the graphics driver offers.

use vstd::prelude::*;

verus! {

/// A pixel format and the colour space that goes with it, by their Vulkan numbers.
#[derive(Clone, Copy, Debug, PartialEq, Eq, Structural)]
pub struct SurfaceFormat {
    pub format: i32,
    pub color_space: i32,
}

/// `VK_FORMAT_B8G8R8A8_SRGB`.
pub const FORMAT_BGRA_SRGB: i32 = 50;

/// `VK_COLOR_SPACE_SRGB_NONLINEAR_KHR`.
pub const COLOR_SPACE_SRGB: i32 = 0;

/// How finished images are shown.
#[derive(Clone, Copy, Debug, PartialEq, Eq, Structural)]
pub enum PresentMode {
    Immediate,
    Mailbox,
    Fifo,
    Other,
}

#[derive(Clone, Copy, Debug, PartialEq, Eq, Structural)]
pub struct Extent {
    pub width: u32,
    pub height: u32,
}

/// What a surface allows.
#[derive(Clone, Copy, Debug)]
pub struct SurfaceCaps {
    pub current: Extent,
    pub min: Extent,
    pub max: Extent,
    pub min_images: u32,
    /// Zero for no limit.
    pub max_images: u32,
}

/// What a queue family can do.
#[derive(Clone, Copy, Debug, PartialEq, Eq, Structural)]
pub struct QueueFamily {
    pub graphics: bool,
    pub present: bool,
}

/// What matters of a device: whether it can draw to the surface, and whether it is a card of its
/// own.
#[derive(Clone, Copy, Debug, PartialEq, Eq, Structural)]
pub struct DeviceChoice {
    pub suitable: bool,
    pub discrete: bool,
}

pub open spec fn preferred_format() -> SurfaceFormat {
    SurfaceFormat { format: FORMAT_BGRA_SRGB, color_space: COLOR_SPACE_SRGB }
}

/// The format of the images: 8-bit sRGB if it is offered, else the first.
pub fn choose_format(formats: &Vec<SurfaceFormat>) -> (r: SurfaceFormat)
    requires
        formats.len() > 0,
    ensures
        r == (if formats@.contains(preferred_format()) {
            preferred_format()
        } else {
            formats[0]
        }),
{
    let mut i: usize = 0;
    while i < formats.len()
        invariant
            formats.len() > 0,
            i <= formats.len(),
            forall|j: int| 0 <= j < i ==> formats[j] != preferred_format(),
        decreases formats.len() - i,
    {
        let f = formats[i];
        if f.format == FORMAT_BGRA_SRGB && f.color_space == COLOR_SPACE_SRGB {
            assert(formats@[i as int] == preferred_format());
            return f;
        }
        i = i + 1;
    }
    formats[0]
}

/// The pixel format of the images.
pub fn choose_surface_format(formats: &Vec<SurfaceFormat>) -> (r: i32)
    requires
        formats.len() > 0,
    ensures
        r == (if formats@.contains(preferred_format()) {
            FORMAT_BGRA_SRGB
        } else {
            formats[0].format
        }),
{
    choose_format(formats).format
}

fn offers(modes: &Vec<PresentMode>, mode: PresentMode) -> (r: bool)
    ensures
        r == modes@.contains(mode),
{
    let mut i: usize = 0;
    while i < modes.len()
        invariant
            i <= modes.len(),
            forall|j: int| 0 <= j < i ==> modes[j] != mode,
        decreases modes.len() - i,
    {
        if modes[i] == mode {
            assert(modes@[i as int] == mode);
            return true;
        }
        i = i + 1;
    }
    false
}

/// How images are shown: at once if that is offered, else the newest at the next refresh, else
/// in turn, which is always there.
pub fn choose_present_mode(modes: &Vec<PresentMode>) -> (r: PresentMode)
    ensures
        r == (if modes@.contains(PresentMode::Immediate) {
            PresentMode::Immediate
        } else if modes@.contains(PresentMode::Mailbox) {
            PresentMode::Mailbox
        } else {
            PresentMode::Fifo
        }),
{
    if offers(modes, PresentMode::Immediate) {
        PresentMode::Immediate
    } else if offers(modes, PresentMode::Mailbox) {
        PresentMode::Mailbox
    } else {
        PresentMode::Fifo
    }
}

/// A number moved into a range.
pub open spec fn clamped(n: u32, lo: u32, hi: u32) -> u32 {
    if n < lo {
        lo
    } else if n > hi {
        hi
    } else {
        n
    }
}

fn clamp(n: u32, lo: u32, hi: u32) -> (r: u32)
    requires
        lo <= hi,
    ensures
        r == clamped(n, lo, hi),
{
    if n < lo {
        lo
    } else if n > hi {
        hi
    } else {
        n
    }
}

/// The size of the images: that of the surface if it has one, else that of the window as far as
/// the surface allows.
pub fn choose_extent(caps: &SurfaceCaps, width: u32, height: u32) -> (r: Extent)
    requires
        caps.current.width == u32::MAX ==> caps.min.width <= caps.max.width && caps.min.height
            <= caps.max.height,
    ensures
        r == (if caps.current.width != u32::MAX {
            caps.current
        } else {
            Extent {
                width: clamped(width, caps.min.width, caps.max.width),
                height: clamped(height, caps.min.height, caps.max.height),
            }
        }),
{
    if caps.current.width != u32::MAX {
        caps.current
    } else {
        Extent {
            width: clamp(width, caps.min.width, caps.max.width),
            height: clamp(height, caps.min.height, caps.max.height),
        }
    }
}

/// How many images there are: one more than needed, but no more than allowed.
pub fn image_count(caps: &SurfaceCaps) -> (r: u32)
    requires
        caps.min_images < u32::MAX,
    ensures
        r == (if caps.max_images > 0 && caps.min_images + 1 > caps.max_images {
            caps.max_images as int
        } else {
            caps.min_images + 1
        }),
{
    let n: u32 = caps.min_images + 1;
    if caps.max_images > 0 && n > caps.max_images {
        caps.max_images
    } else {
        n
    }
}

/// A memory type is allowed by a filter and has all of the wanted properties.
pub open spec fn memory_fits(filter: u32, types: Seq<u32>, wanted: u32, i: int) -> bool {
    filter & (1u32 << (i as u32)) != 0 && types[i] & wanted == wanted
}

/// The first memory type that a filter allows and that has all of the wanted properties.
pub fn find_memory_type(filter: u32, types: &Vec<u32>, wanted: u32) -> (r: Option<u32>)
    requires
        types.len() <= 32,
    ensures
        match r {
            Some(i) => i < types.len() && memory_fits(filter, types@, wanted, i as int) && forall|
                j: int,
            |
                0 <= j < i ==> !#[trigger] memory_fits(filter, types@, wanted, j),
            None => forall|j: int|
                0 <= j < types.len() ==> !#[trigger] memory_fits(filter, types@, wanted, j),
        },
{
    let mut i: usize = 0;
    while i < types.len()
        invariant
            i <= types.len() <= 32,
            forall|j: int| 0 <= j < i ==> !#[trigger] memory_fits(filter, types@, wanted, j),
        decreases types.len() - i,
    {
        let k: u32 = i as u32;
        if filter & (1u32 << k) != 0 && types[i] & wanted == wanted {
            assert(memory_fits(filter, types@, wanted, i as int));
            return Some(k);
        }
        assert(!memory_fits(filter, types@, wanted, i as int));
        i = i + 1;
    }
    None
}

/// The last of the first `k` families that can draw.
pub open spec fn last_graphics(f: Seq<QueueFamily>, k: int) -> Option<u32>
    decreases k,
{
    if k <= 0 {
        None
    } else if f[k - 1].graphics {
        Some((k - 1) as u32)
    } else {
        last_graphics(f, k - 1)
    }
}

/// The last of the first `k` families that can show images.
pub open spec fn last_present(f: Seq<QueueFamily>, k: int) -> Option<u32>
    decreases k,
{
    if k <= 0 {
        None
    } else if f[k - 1].present {
        Some((k - 1) as u32)
    } else {
        last_present(f, k - 1)
    }
}

/// Both kinds of families are among the first `k`.
pub open spec fn both_among(f: Seq<QueueFamily>, k: int) -> bool {
    last_graphics(f, k) is Some && last_present(f, k) is Some
}

/// The families that are used: those that were seen last when both kinds were seen for the first
/// time.
pub fn find_queue_families(families: &Vec<QueueFamily>) -> (r: Option<(u32, u32)>)
    requires
        families.len() <= u32::MAX,
    ensures
        match r {
            Some((g, p)) => exists|k: int|
                0 <= k <= families.len() && #[trigger] both_among(families@, k) && !both_among(
                    families@,
                    k - 1,
                ) && last_graphics(families@, k) == Some(g) && last_present(families@, k) == Some(
                    p,
                ),
            None => !both_among(families@, families.len() as int),
        },
{
    let mut graphics: Option<u32> = None;
    let mut present: Option<u32> = None;
    let mut i: usize = 0;
    while i < families.len()
        invariant
            i <= families.len() <= u32::MAX,
            graphics == last_graphics(families@, i as int),
            present == last_present(families@, i as int),
            !both_among(families@, i as int),
        decreases families.len() - i,
    {
        let f = families[i];
        if f.graphics {
            graphics = Some(i as u32);
        }
        if f.present {
            present = Some(i as u32);
        }
        if let Some(g) = graphics {
            if let Some(p) = present {
                assert(both_among(families@, i + 1));
                assert(!both_among(families@, (i + 1) - 1));
                return Some((g, p));
            }
        }
        i = i + 1;
    }
    None
}

/// The last of the first `k` devices that are suitable.
pub open spec fn last_suitable(d: Seq<DeviceChoice>, k: int) -> Option<usize>
    decreases k,
{
    if k <= 0 {
        None
    } else if d[k - 1].suitable {
        Some((k - 1) as usize)
    } else {
        last_suitable(d, k - 1)
    }
}

/// The first of the first `k` devices that are suitable and a card of their own.
pub open spec fn first_discrete(d: Seq<DeviceChoice>, k: int) -> Option<usize>
    decreases k,
{
    if k <= 0 {
        None
    } else if first_discrete(d, k - 1) is Some {
        first_discrete(d, k - 1)
    } else if d[k - 1].suitable && d[k - 1].discrete {
        Some((k - 1) as usize)
    } else {
        None
    }
}

/// The device that is used: the first suitable one that is a card of its own, else the last
/// suitable one.
pub fn pick_physical_device(devices: &Vec<DeviceChoice>) -> (r: Option<usize>)
    ensures
        r == (match first_discrete(devices@, devices.len() as int) {
            Some(i) => Some(i),
            None => last_suitable(devices@, devices.len() as int),
        }),
{
    let mut fallback: Option<usize> = None;
    let mut i: usize = 0;
    while i < devices.len()
        invariant
            i <= devices.len(),
            fallback == last_suitable(devices@, i as int),
            first_discrete(devices@, i as int) is None,
        decreases devices.len() - i,
    {
        let d = devices[i];
        if d.suitable {
            if d.discrete {
                proof {
                    lemma_first_discrete_stays(devices@, i + 1, devices.len() as int);
                }
                return Some(i);
            }
            fallback = Some(i);
        }
        i = i + 1;
    }
    fallback
}

proof fn lemma_first_discrete_stays(d: Seq<DeviceChoice>, k: int, n: int)
    requires
        k <= n,
        first_discrete(d, k) is Some,
    ensures
        first_discrete(d, n) == first_discrete(d, k),
    decreases n - k,
{
    if k < n {
        lemma_first_discrete_stays(d, k, n - 1);
    }
}

/// The families that queues are made for: one if it serves for both.
pub fn unique_families(graphics: u32, present: u32) -> (r: Vec<u32>)
    ensures
        r@ == (if graphics == present {
            seq![graphics]
        } else {
            seq![graphics, present]
        }),
{
    let mut r: Vec<u32> = Vec::new();
    r.push(graphics);
    if graphics != present {
        r.push(present);
    }
    r
}

/// How many threads generate and mesh chunks: all cores but two, and at least one.
pub fn worker_threads(cores: usize) -> (r: usize)
    ensures
        r == (if cores > 3 {
            cores - 2
        } else {
            1
        }),
{
    if cores > 3 {
        cores - 2
    } else {
        1
    }
}

// ── What is chosen ───────────────────────────────────────────────────────────

/// The preferred format has 8 bits for each of blue, green, red and alpha, in sRGB.
pub proof fn law_preferred_format()
    ensures
        preferred_format().format == 50,
        preferred_format().color_space == 0,
{
}

/// A number that is in a range stays, and any other goes to the end that is nearer.
pub proof fn law_clamped(n: u32, lo: u32, hi: u32)
    requires
        lo <= hi,
    ensures
        lo <= clamped(n, lo, hi) <= hi,
        lo <= n <= hi ==> clamped(n, lo, hi) == n,
        n < lo ==> clamped(n, lo, hi) == lo,
        n > hi ==> clamped(n, lo, hi) == hi,
{
}

/// A memory type fits if the bit of its number is set in the filter, and it lacks none of the
/// wanted properties.
pub proof fn law_memory_fits(filter: u32, types: Seq<u32>, wanted: u32, i: int)
    requires
        0 <= i < 32,
    ensures
        memory_fits(filter, types, wanted, i) <==> (filter >> (i as u32)) & 1 == 1 && wanted
            & !types[i] == 0,
{
    let k = i as u32;
    let t = types[i];
    assert((filter & (1u32 << k) != 0) == ((filter >> k) & 1 == 1)) by (bit_vector)
        requires
            k < 32,
    ;
    assert((t & wanted == wanted) == (wanted & !t == 0)) by (bit_vector);
}

/// The families that were seen last are of their kinds, and none after them is.
pub proof fn law_last_families(f: Seq<QueueFamily>, k: int, i: int)
    requires
        0 <= k <= f.len() <= u32::MAX,
        0 <= i < k,
    ensures
        last_graphics(f, k) matches Some(g) ==> g < k && f[g as int].graphics && (g < i
            ==> !f[i].graphics),
        last_graphics(f, k) is None ==> !f[i].graphics,
        last_present(f, k) matches Some(p) ==> p < k && f[p as int].present && (p < i
            ==> !f[i].present),
        last_present(f, k) is None ==> !f[i].present,
    decreases k,
{
    if k > 0 {
        if i < k - 1 {
            law_last_families(f, k - 1, i);
        } else if k > 1 {
            law_last_families(f, k - 1, 0);
        }
    }
}

/// The device that is picked is suitable. It is a card of its own if there is a suitable one that
/// is, and then the first; else it is the last suitable one.
pub proof fn law_devices(d: Seq<DeviceChoice>, k: int, i: int)
    requires
        0 <= k <= d.len() <= usize::MAX,
        0 <= i < k,
    ensures
        first_discrete(d, k) matches Some(n) ==> n < k && d[n as int].suitable && d[n as int].discrete
            && (i < n ==> !(d[i].suitable && d[i].discrete)),
        first_discrete(d, k) is None ==> !(d[i].suitable && d[i].discrete),
        last_suitable(d, k) matches Some(n) ==> n < k && d[n as int].suitable && (n < i
            ==> !d[i].suitable),
        last_suitable(d, k) is None ==> !d[i].suitable,
    decreases k,
{
    if k > 0 {
        if i < k - 1 {
            law_devices(d, k - 1, i);
        } else if k > 1 {
            law_devices(d, k - 1, 0);
        }
    }
}

} // verus!
