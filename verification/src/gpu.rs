//! What compressing and showing textures on a graphics card takes: sizes, pipelines and layouts.

use crate::format::HapFormat;
use vstd::prelude::*;

verus! {

/// Errors of compressing on a graphics card.
#[derive(Debug)]
pub enum GpuCompressError {
    /// The device or the adapter failed.
    Device(String),
    /// The result could not be read back.
    BufferMap(String),
    /// A dimension is 0 or not a multiple of 4.
    InvalidDimensions { width: u32, height: u32 },
    /// The buffer does not fit the dimensions.
    InputSizeMismatch { expected: usize, actual: usize },
    /// There is no pipeline for the format.
    UnsupportedFormat(HapFormat),
}

/// What a graphics card can do.
#[derive(Debug, Clone, Copy)]
pub struct GpuCapabilities {
    pub supports_bc: bool,
    pub adapter_name: &'static str,
}

/// The shaders.
#[derive(Debug, Clone, Copy, PartialEq, Eq, Structural)]
pub enum GpuPipeline {
    Bc1,
    Bc3,
    YcocgBc3,
    Bc4,
    Bc7,
}

/// The buffers for images of one size.
#[derive(Debug, Clone, Copy, PartialEq, Eq, Structural)]
pub struct GpuPlan {
    pub width: u32,
    pub height: u32,
    pub blocks_x: u32,
    pub blocks_y: u32,
    /// The bytes of the pixels.
    pub input_size: u64,
    /// The bytes of the largest texture.
    pub output_size: u64,
}

/// One compression: the shader, and the bytes that it writes.
#[derive(Debug, Clone, Copy, PartialEq, Eq, Structural)]
pub struct GpuJob {
    pub pipeline: GpuPipeline,
    pub output_len: usize,
}

/// The shader for a format, if there is one.
pub open spec fn pipeline_for(format: HapFormat) -> Option<GpuPipeline> {
    match format {
        HapFormat::Hap1 => Some(GpuPipeline::Bc1),
        HapFormat::Hap5 => Some(GpuPipeline::Bc3),
        HapFormat::HapY => Some(GpuPipeline::YcocgBc3),
        HapFormat::HapA => Some(GpuPipeline::Bc4),
        HapFormat::Hap7 => Some(GpuPipeline::Bc7),
        _ => None,
    }
}

/// An image has pixels, and whole blocks of them.
pub open spec fn compressible(width: int, height: int) -> bool {
    width > 0 && height > 0 && crate::dxt::whole_blocks(width, height)
}

impl GpuPlan {
    /// The sizes are those of the image.
    pub open spec fn wf(self) -> bool {
        &&& compressible(self.width as int, self.height as int)
        &&& self.blocks_x == self.width / 4
        &&& self.blocks_y == self.height / 4
        &&& self.blocks_x * self.blocks_y <= u32::MAX
        &&& self.input_size == self.width * self.height * 4
        &&& self.output_size == self.blocks_x * self.blocks_y * 16
    }

    /// The buffers for images of a size.
    pub fn new(width: u32, height: u32) -> (r: Result<GpuPlan, GpuCompressError>)
        requires
            (width as int / 4) * (height as int / 4) <= u32::MAX,
        ensures
            match r {
                Ok(p) => {
                    &&& compressible(width as int, height as int)
                    &&& p.wf()
                    &&& p.width == width
                    &&& p.height == height
                },
                Err(e) => {
                    &&& !compressible(width as int, height as int)
                    &&& e == GpuCompressError::InvalidDimensions { width, height }
                },
            },
    {
        if width == 0 || height == 0 || width % 4 != 0 || height % 4 != 0 {
            return Err(GpuCompressError::InvalidDimensions { width, height });
        }
        let blocks_x: u32 = width / 4;
        let blocks_y: u32 = height / 4;
        let blocks: u64 = (blocks_x * blocks_y) as u64;
        assert(width * height == 16 * (blocks_x * blocks_y)) by (nonlinear_arith)
            requires
                width == 4 * blocks_x,
                height == 4 * blocks_y,
        ;
        Ok(
            GpuPlan {
                width,
                height,
                blocks_x,
                blocks_y,
                input_size: width as u64 * height as u64 * 4,
                output_size: blocks * 16,
            },
        )
    }

    /// The bytes of an image.
    pub open spec fn image_len(self) -> int {
        self.width * self.height * 4
    }

    /// The compression of a buffer of `len` bytes to a format.
    pub fn job(&self, len: usize, format: HapFormat) -> (r: Result<GpuJob, GpuCompressError>)
        requires
            self.wf(),
            self.image_len() <= usize::MAX,
        ensures
            match r {
                Ok(j) => {
                    &&& len == self.image_len()
                    &&& pipeline_for(format) == Some(j.pipeline)
                    &&& j.output_len == self.blocks_x * self.blocks_y * format.block_bytes()
                    &&& j.output_len <= self.output_size
                },
                Err(e) => if len != self.image_len() {
                    e == GpuCompressError::InputSizeMismatch {
                        expected: self.image_len() as usize,
                        actual: len,
                    }
                } else {
                    pipeline_for(format) is None && e == GpuCompressError::UnsupportedFormat(format)
                },
            },
    {
        assert(self.width * self.height == 16 * (self.blocks_x * self.blocks_y)) by (nonlinear_arith)
            requires
                self.width == 4 * self.blocks_x,
                self.height == 4 * self.blocks_y,
        ;
        let expected: usize = self.width as usize * self.height as usize * 4;
        if len != expected {
            return Err(GpuCompressError::InputSizeMismatch { expected, actual: len });
        }
        let pipeline = match format {
            HapFormat::Hap1 => GpuPipeline::Bc1,
            HapFormat::Hap5 => GpuPipeline::Bc3,
            HapFormat::HapY => GpuPipeline::YcocgBc3,
            HapFormat::HapA => GpuPipeline::Bc4,
            HapFormat::Hap7 => GpuPipeline::Bc7,
            _ => return Err(GpuCompressError::UnsupportedFormat(format)),
        };
        let bytes_per_block: usize = match format {
            HapFormat::Hap1 | HapFormat::HapA => 8,
            _ => 16,
        };
        let blocks: usize = self.blocks_x as usize * self.blocks_y as usize;
        Ok(GpuJob { pipeline, output_len: blocks * bytes_per_block })
    }
}

/// The block format that a shader writes; BC7 has an encoder of its own on the processor.
pub open spec fn written_blocks(pipeline: GpuPipeline) -> Option<crate::dxt::BlockFormat> {
    match pipeline {
        GpuPipeline::Bc1 => Some(crate::dxt::BlockFormat::Bc1),
        GpuPipeline::Bc3 | GpuPipeline::YcocgBc3 => Some(crate::dxt::BlockFormat::Bc3),
        GpuPipeline::Bc4 => Some(crate::dxt::BlockFormat::Bc4),
        GpuPipeline::Bc7 => None,
    }
}

/// A texture from the card has the size of one that the processor compresses.
pub proof fn law_texture_sizes_agree(p: GpuPlan, format: HapFormat, blocks: crate::dxt::BlockFormat)
    requires
        p.wf(),
        pipeline_for(format) is Some,
        written_blocks(pipeline_for(format)->0) == Some(blocks),
    ensures
        p.blocks_x * p.blocks_y * format.block_bytes() == crate::dxt::blocks_len(
            blocks,
            p.width as int,
            p.height as int,
        ),
{
}

/// How the rows of a texture lie in a buffer.
#[derive(Debug, Clone, Copy, PartialEq, Eq, Structural)]
pub struct RowLayout {
    pub bytes_per_row: u32,
    pub rows: u32,
}

/// The rows of pixels.
pub fn pixel_rows(width: u32, height: u32) -> (r: RowLayout)
    requires
        width * 4 <= u32::MAX,
    ensures
        r == (RowLayout { bytes_per_row: (width * 4) as u32, rows: height }),
{
    RowLayout { bytes_per_row: width * 4, rows: height }
}

/// The rows of blocks.
pub fn block_rows(width: u32, height: u32, format: HapFormat) -> (r: RowLayout)
    requires
        (width as int / 4) * format.block_bytes() <= u32::MAX,
    ensures
        r.bytes_per_row == (width as int / 4) * format.block_bytes(),
        r.rows == height / 4,
{
    RowLayout { bytes_per_row: width / 4 * format.bytes_per_block() as u32, rows: height / 4 }
}

/// The source of a shader behind the code that all of them share.
pub fn with_refit(shared: &str, source: &str) -> (r: String)
    ensures
        r@ == shared@ + "\n"@ + source@,
{
    let mut out: String = shared.to_owned();
    out.append("\n");
    out.append(source);
    out
}

/// The shader for a format writes the blocks of that format, and only Hap Q Alpha and the HDR format
/// have none; two formats share no shader.
pub proof fn law_pipelines(f: HapFormat, g: HapFormat)
    ensures
        pipeline_for(f) is None <==> f == HapFormat::HapM || f == HapFormat::HapH,
        pipeline_for(f) is Some && pipeline_for(f) == pipeline_for(g) ==> f == g,
        f == HapFormat::Hap7 <==> pipeline_for(f) is Some && written_blocks(pipeline_for(f)->0)
            is None,
        pipeline_for(f) is Some && f != HapFormat::Hap7 ==> written_blocks(
            pipeline_for(f)->0,
        )->0.block_bytes() == f.block_bytes(),
        f == HapFormat::HapA ==> written_blocks(pipeline_for(f)->0) == Some(
            crate::dxt::BlockFormat::Bc4,
        ),
        f == HapFormat::HapY ==> pipeline_for(f) == Some(GpuPipeline::YcocgBc3),
{
}

} // verus!
