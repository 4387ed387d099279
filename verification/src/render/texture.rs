//! The layers of the block textures.

use crate::world::block::{TEX_DIRT, TEX_GRASS_TOP, TEX_STONE};
use vstd::prelude::*;

verus! {

/// Layers of the texture array.
pub const LAYER_COUNT: u32 = 4;

/// Pixels along the sides of a placeholder.
pub const PLACEHOLDER_SIZE: u32 = 24;

/// An image with four bytes for each pixel.
pub struct Layer {
    pub width: u32,
    pub height: u32,
    pub pixels: Vec<u8>,
}

/// The file of a layer.
pub open spec fn file_of(layer: u32) -> Seq<char> {
    if layer == TEX_STONE {
        "Stone.png"@
    } else if layer == TEX_DIRT {
        "Dirt.png"@
    } else if layer == TEX_GRASS_TOP {
        "Grass_Top.png"@
    } else {
        "Grass_Side.png"@
    }
}

/// The colour that a layer has if there is no file for it.
pub open spec fn color_of(layer: u32) -> [u8; 4] {
    if layer == TEX_STONE {
        [128, 128, 128, 255]
    } else if layer == TEX_DIRT {
        [101, 67, 33, 255]
    } else if layer == TEX_GRASS_TOP {
        [85, 139, 48, 255]
    } else {
        [69, 108, 45, 255]
    }
}

/// The file of a layer.
pub fn layer_file(layer: u32) -> (r: &'static str)
    requires
        layer < LAYER_COUNT,
    ensures
        r@ == file_of(layer),
{
    if layer == TEX_STONE {
        "Stone.png"
    } else if layer == TEX_DIRT {
        "Dirt.png"
    } else if layer == TEX_GRASS_TOP {
        "Grass_Top.png"
    } else {
        "Grass_Side.png"
    }
}

/// An image that shows one colour, for a layer without a file.
pub fn placeholder(layer: u32) -> (r: Layer)
    requires
        layer < LAYER_COUNT,
    ensures
        r.width == PLACEHOLDER_SIZE,
        r.height == PLACEHOLDER_SIZE,
        r.pixels.len() == 4 * PLACEHOLDER_SIZE * PLACEHOLDER_SIZE,
        forall|i: int|
            0 <= i < r.pixels.len() ==> #[trigger] r.pixels[i] == color_of(layer)[i % 4],
{
    let color: [u8; 4] = if layer == TEX_STONE {
        [128, 128, 128, 255]
    } else if layer == TEX_DIRT {
        [101, 67, 33, 255]
    } else if layer == TEX_GRASS_TOP {
        [85, 139, 48, 255]
    } else {
        [69, 108, 45, 255]
    };
    let mut pixels: Vec<u8> = Vec::new();
    let mut i: usize = 0;
    while i < 2304
        invariant
            i <= 2304,
            pixels.len() == i,
            color == color_of(layer),
            forall|j: int| 0 <= j < i ==> #[trigger] pixels[j] == color_of(layer)[j % 4],
        decreases 2304 - i,
    {
        pixels.push(color[i % 4]);
        i = i + 1;
    }
    Layer { width: PLACEHOLDER_SIZE, height: PLACEHOLDER_SIZE, pixels }
}

/// The first layer that is not as large as layer 0.
pub fn odd_layer(layers: &Vec<Layer>) -> (r: Option<usize>)
    requires
        layers.len() > 0,
    ensures
        match r {
            Some(i) => i < layers.len() && !same_size(layers@, i as int) && forall|j: int|
                0 <= j < i ==> #[trigger] same_size(layers@, j),
            None => forall|j: int| 0 <= j < layers.len() ==> #[trigger] same_size(layers@, j),
        },
{
    let mut i: usize = 0;
    while i < layers.len()
        invariant
            0 < layers.len(),
            i <= layers.len(),
            forall|j: int| 0 <= j < i ==> #[trigger] same_size(layers@, j),
        decreases layers.len() - i,
    {
        if layers[i].width != layers[0].width || layers[i].height != layers[0].height {
            assert(!same_size(layers@, i as int));
            return Some(i);
        }
        assert(same_size(layers@, i as int));
        i = i + 1;
    }
    None
}

/// A layer is as large as layer 0.
pub open spec fn same_size(layers: Seq<Layer>, i: int) -> bool {
    layers[i].width == layers[0].width && layers[i].height == layers[0].height
}

/// Where a layer begins in the packed bytes.
pub open spec fn layer_offset(n: int, i: int) -> int {
    n * i
}

/// All layers, one after the other.
pub fn pack_layers(layers: &Vec<Layer>, layer_bytes: usize) -> (r: Vec<u8>)
    requires
        forall|i: int| 0 <= i < layers.len() ==> (#[trigger] layers[i]).pixels.len() == layer_bytes,
        layers.len() * layer_bytes <= usize::MAX,
    ensures
        r.len() == layers.len() * layer_bytes,
        forall|i: int, b: int|
            0 <= i < layers.len() && 0 <= b < layer_bytes ==> r[layer_offset(layer_bytes as int, i)
                + b] == #[trigger] layers[i].pixels[b],
{
    let mut r: Vec<u8> = Vec::new();
    let mut i: usize = 0;
    while i < layers.len()
        invariant
            i <= layers.len(),
            forall|j: int|
                0 <= j < layers.len() ==> (#[trigger] layers[j]).pixels.len() == layer_bytes,
            layers.len() * layer_bytes <= usize::MAX,
            r.len() == i * layer_bytes,
            forall|j: int, b: int|
                0 <= j < i && 0 <= b < layer_bytes ==> r[layer_offset(layer_bytes as int, j) + b]
                    == #[trigger] layers[j].pixels[b],
        decreases layers.len() - i,
    {
        let ghost before = r@;
        assert(layers[i as int].pixels.len() == layer_bytes);
        let mut b: usize = 0;
        while b < layer_bytes
            invariant
                b <= layer_bytes,
                i < layers.len(),
                layers[i as int].pixels.len() == layer_bytes,
                before.len() == i * layer_bytes,
                r.len() == before.len() + b,
                forall|k: int| 0 <= k < before.len() ==> #[trigger] r[k] == before[k],
                forall|k: int|
                    0 <= k < b ==> r[before.len() + k] == #[trigger] layers[i as int].pixels[k],
            decreases layer_bytes - b,
        {
            r.push(layers[i].pixels[b]);
            b = b + 1;
        }
        proof {
            assert((i + 1) * layer_bytes == i * layer_bytes + layer_bytes) by (nonlinear_arith);
            assert(layer_offset(layer_bytes as int, i as int) == i * layer_bytes)
                by (nonlinear_arith)
                requires
                    layer_offset(layer_bytes as int, i as int) == layer_bytes * i,
            ;
            assert forall|j: int, k: int|
                0 <= j < i + 1 && 0 <= k < layer_bytes implies r[layer_offset(
                layer_bytes as int,
                j,
            ) + k] == #[trigger] layers[j].pixels[k] by {
                if j < i {
                    assert(0 <= layer_bytes * j && layer_bytes * j + layer_bytes <= i * layer_bytes)
                        by (nonlinear_arith)
                        requires
                            0 <= j < i,
                            0 <= layer_bytes,
                    ;
                    assert(before[layer_offset(layer_bytes as int, j) + k] == layers[j].pixels[k]);
                }
            }
        }
        i = i + 1;
    }
    r
}

/// Each layer has a file and a colour of its own, and stands for what it is used for: stone, dirt,
/// and grass on top and on the sides.
pub proof fn law_layers()
    ensures
        file_of(0) == "Stone.png"@,
        file_of(1) == "Dirt.png"@,
        file_of(2) == "Grass_Top.png"@,
        file_of(3) == "Grass_Side.png"@,
        color_of(0)[0] == 128 && color_of(0)[1] == 128 && color_of(0)[2] == 128,
        color_of(1)[0] == 101 && color_of(1)[1] == 67 && color_of(1)[2] == 33,
        color_of(2)[0] == 85 && color_of(2)[1] == 139 && color_of(2)[2] == 48,
        color_of(3)[0] == 69 && color_of(3)[1] == 108 && color_of(3)[2] == 45,
        forall|l: u32| l < 4 ==> #[trigger] color_of(l)[3] == 255,
{
}

/// Layers lie one behind the other without a gap, and have as many bytes as they are apart.
pub proof fn law_layer_offsets(n: int, i: int)
    ensures
        layer_offset(n, 0) == 0,
        layer_offset(n, i + 1) == layer_offset(n, i) + n,
{
    assert(n * (i + 1) == n * i + n) by (nonlinear_arith);
}

/// Layers are as large as the first if both of their sides are.
pub proof fn law_same_size(layers: Seq<Layer>, i: int)
    ensures
        same_size(layers, i) <==> (layers[i].width, layers[i].height) == (
            layers[0].width,
            layers[0].height,
        ),
{
}

} // verus!
