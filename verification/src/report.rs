//! Structured scan-processing report: the integer parts that the pipeline
//! fills in (input counts, per-stage timings, output sizes).

use vstd::prelude::*;

verus! {

/// Input file metadata. Populated by the caller (CLI/API), not the pipeline.
#[derive(Debug, Clone, PartialEq)]
pub struct InputInfo {
    pub filename: Option<String>,
    pub file_size_bytes: Option<u64>,
    pub format: String,
    pub original_vertex_count: usize,
}

impl InputInfo {
    /// What the pipeline knows of a PLY input: its format and vertex count;
    /// the file name and size are the caller's to fill in.
    pub fn for_ply(original_vertex_count: usize) -> (r: InputInfo)
        ensures
            r.filename is None,
            r.file_size_bytes is None,
            r.format@ == "ply"@,
            r.original_vertex_count == original_vertex_count,
    {
        InputInfo {
            filename: None,
            file_size_bytes: None,
            format: String::from_str("ply"),
            original_vertex_count,
        }
    }
}

/// Per-stage processing durations in milliseconds.
#[derive(Debug, Clone, Copy, PartialEq, Eq, Structural)]
pub struct StageTiming {
    pub parse_ms: u64,
    pub downsample_ms: u64,
    pub outlier_removal_ms: u64,
    pub ransac_ms: u64,
    pub total_processing_ms: u64,
    /// Terrain export duration. None if export was not run.
    pub terrain_export_ms: Option<u64>,
}

/// Output artifact sizes and counts. Populated after terrain export.
#[derive(Debug, Clone, Copy, PartialEq, Eq, Structural)]
pub struct OutputInfo {
    pub glb_size_bytes: usize,
    pub png_size_bytes: usize,
    pub triangle_count: usize,
    pub vertex_count: usize,
}

impl OutputInfo {
    /// Build from a completed terrain export: its GLB and PNG bytes and the
    /// triangle and vertex counts of its decimated mesh.
    pub fn from_terrain(
        mesh_glb: &[u8],
        plan_view_png: &[u8],
        decimated_triangle_count: usize,
        vertex_count: usize,
    ) -> (r: OutputInfo)
        ensures
            r.glb_size_bytes == mesh_glb@.len(),
            r.png_size_bytes == plan_view_png@.len(),
            r.triangle_count == decimated_triangle_count,
            r.vertex_count == vertex_count,
    {
        OutputInfo {
            glb_size_bytes: mesh_glb.len(),
            png_size_bytes: plan_view_png.len(),
            triangle_count: decimated_triangle_count,
            vertex_count,
        }
    }
}

} // verus!
