use markov_junior::grid::MjGrid;
use markov_junior::recording::archive::{ArchiveError, SimulationArchive, HEADER_SIZE};
use markov_junior::recording::grid_type::GridType;
use markov_junior::recording::recorder::SimulationRecorder;
use markov_junior::recording::traits::{default_colors_for_palette, RecordableGrid};
use markov_junior::recording::video::{sample_frame_indices, ExportRefusal, VideoExporter};

#[test]
fn archive_test_archive_roundtrip() {
    let grid_type = GridType::Cartesian2D { width: 10, height: 10 };
    let palette = "BWR".to_string();
    let frame1 = vec![0u8; 100];
    let mut frame2 = vec![0u8; 100];
    frame2[50] = 1;
    frame2[51] = 2;
    let archive = SimulationArchive::new(grid_type, palette.clone(), vec![frame1, frame2]);
    let mut buffer = Vec::new();
    archive.write_to(&mut buffer).unwrap();
    let loaded = SimulationArchive::read_from(&buffer).unwrap();
    assert_eq!(loaded.grid_type, grid_type);
    assert_eq!(loaded.palette, palette);
    assert_eq!(loaded.frame_count(), 2);
    assert_eq!(loaded.frame(0).unwrap()[50], 0);
    assert_eq!(loaded.frame(1).unwrap()[50], 1);
    assert_eq!(loaded.frame(1).unwrap()[51], 2);
}

#[test]
fn test_archive_polar_roundtrip() {
    let grid_type = GridType::Polar2D { r_min: 64, r_depth: 32, theta_divisions: 402 };
    let palette = "XRGMYC".to_string();
    let frame_size = grid_type.bytes_per_frame();
    let frame = vec![0u8; frame_size];
    let archive = SimulationArchive::new(grid_type, palette.clone(), vec![frame]);
    let mut buffer = Vec::new();
    archive.write_to(&mut buffer).unwrap();
    let loaded = SimulationArchive::read_from(&buffer).unwrap();
    assert_eq!(loaded.grid_type, grid_type);
    assert_eq!(loaded.palette, palette);
}

#[test]
fn test_invalid_magic() {
    let bad_data = vec![0u8; HEADER_SIZE];
    let result = SimulationArchive::read_from(&bad_data);
    assert!(matches!(result, Err(ArchiveError::InvalidMagic)));
}

#[test]
fn archive_rejects_short_input_and_long_palette() {
    let result = SimulationArchive::read_from(&[77u8, 74, 83, 77]);
    assert!(matches!(result, Err(ArchiveError::Truncated)));
    let grid_type = GridType::Cartesian2D { width: 1, height: 1 };
    let archive = SimulationArchive::new(grid_type, "B".repeat(257), vec![]);
    let mut buffer = Vec::new();
    assert!(matches!(archive.write_to(&mut buffer), Err(ArchiveError::PaletteTooLong)));
    assert!(buffer.is_empty());
}

#[test]
fn archive_header_layout_and_errors() {
    let grid_type = GridType::Cartesian2D { width: 2, height: 1 };
    let archive = SimulationArchive::new(grid_type, "BW".to_string(), vec![vec![1, 0]]);
    let mut buffer = Vec::new();
    archive.write_to(&mut buffer).unwrap();
    assert_eq!(buffer.len(), HEADER_SIZE + 2);
    assert_eq!(&buffer[0..4], b"MJSM");
    assert_eq!(&buffer[4..6], &[1, 0]);
    assert_eq!(buffer[22], 2);
    assert_eq!(&buffer[23..25], b"BW");
    assert_eq!(&buffer[279..283], &[1, 0, 0, 0]);
    assert_eq!(&buffer[283..287], &[2, 0, 0, 0]);
    assert_eq!(&buffer[288..290], &[1, 0]);
    let mut versioned = buffer.clone();
    versioned[4] = 2;
    assert!(matches!(SimulationArchive::read_from(&versioned), Err(ArchiveError::UnsupportedVersion(2))));
    let mut bad_type = buffer.clone();
    bad_type[6] = 9;
    assert!(matches!(SimulationArchive::read_from(&bad_type), Err(ArchiveError::InvalidGridType)));
    let mut bad_size = buffer.clone();
    bad_size[283] = 3;
    assert!(matches!(
        SimulationArchive::read_from(&bad_size),
        Err(ArchiveError::FrameSizeMismatch { expected: 2, got: 3 })
    ));
    let truncated = &buffer[0..HEADER_SIZE + 1];
    assert!(matches!(SimulationArchive::read_from(truncated), Err(ArchiveError::Truncated)));
    assert_eq!(archive.total_frame_bytes(), 2);
}

#[test]
fn test_cartesian_2d_roundtrip() {
    let grid_type = GridType::Cartesian2D { width: 100, height: 200 };
    let bytes = grid_type.to_bytes();
    let recovered = GridType::from_bytes(&bytes).unwrap();
    assert_eq!(grid_type, recovered);
    assert_eq!(grid_type.total_cells(), 20000);
}

#[test]
fn test_cartesian_3d_roundtrip() {
    let grid_type = GridType::Cartesian3D { width: 10, height: 20, depth: 30 };
    let bytes = grid_type.to_bytes();
    let recovered = GridType::from_bytes(&bytes).unwrap();
    assert_eq!(grid_type, recovered);
    assert_eq!(grid_type.total_cells(), 6000);
}

#[test]
fn test_polar_2d_roundtrip() {
    let grid_type = GridType::Polar2D { r_min: 64, r_depth: 32, theta_divisions: 402 };
    let bytes = grid_type.to_bytes();
    let recovered = GridType::from_bytes(&bytes).unwrap();
    assert_eq!(grid_type, recovered);
    assert_eq!(grid_type.total_cells(), 32 * 402);
}

#[test]
fn test_is_2d_3d() {
    assert!(GridType::Cartesian2D { width: 1, height: 1 }.is_2d());
    assert!(GridType::Polar2D { r_min: 1, r_depth: 1, theta_divisions: 1 }.is_2d());
    assert!(GridType::Cartesian3D { width: 1, height: 1, depth: 1 }.is_3d());
}

#[test]
fn test_recorder_basic() {
    let mut grid = MjGrid::with_values(10, 10, 1, "BW");
    let mut recorder = SimulationRecorder::new(&grid);
    recorder.record_frame(&grid);
    assert_eq!(recorder.frame_count(), 1);
    grid.set(5, 5, 0, 1);
    recorder.record_frame(&grid);
    assert_eq!(recorder.frame_count(), 2);
    let archive = recorder.into_archive();
    assert_eq!(archive.frame_count(), 2);
}

#[test]
fn tests_test_archive_roundtrip() {
    let mut grid = MjGrid::with_values(10, 10, 1, "BW");
    grid.set(5, 5, 0, 1);
    let mut recorder = SimulationRecorder::new(&grid);
    recorder.record_frame(&grid);
    grid.set(4, 5, 0, 1);
    grid.set(6, 5, 0, 1);
    recorder.record_frame(&grid);
    let archive = recorder.into_archive();
    let mut buffer = Vec::new();
    archive.write_to(&mut buffer).unwrap();
    let loaded = SimulationArchive::read_from(&buffer).unwrap();
    assert_eq!(loaded.grid_type, archive.grid_type);
    assert_eq!(loaded.palette, archive.palette);
    assert_eq!(loaded.frame_count(), archive.frame_count());
    assert_eq!(loaded.frame(0), archive.frame(0));
    assert_eq!(loaded.frame(1), archive.frame(1));
}

#[test]
fn recorder_describes_the_grid() {
    let grid = MjGrid::with_values(3, 2, 1, "BWR");
    assert_eq!(grid.grid_type(), GridType::Cartesian2D { width: 3, height: 2 });
    assert_eq!(RecordableGrid::palette(&grid), "BWR");
    assert_eq!(RecordableGrid::bytes_per_frame(&grid), 6);
    let mut recorder = SimulationRecorder::with_capacity(&grid, 4);
    recorder.record_frame(&grid);
    assert_eq!(recorder.total_bytes(), 6);
    assert_eq!(recorder.palette(), "BWR");
    recorder.clear();
    assert_eq!(recorder.frame_count(), 0);
    let mut g2 = MjGrid::with_values(3, 2, 1, "BWR");
    assert!(g2.state_from_bytes(&[1, 2, 0, 0, 0, 1]));
    assert_eq!(g2.state, vec![1, 2, 0, 0, 0, 1]);
    assert!(!g2.state_from_bytes(&[1]));
}

#[test]
fn test_default_colors() {
    let colors = default_colors_for_palette("BWRGMYC");
    assert_eq!(colors.len(), 7);
    assert_eq!(colors[0], [0, 0, 0, 0]);
    assert_eq!(colors[1], [255, 255, 255, 255]);
    assert_eq!(colors[2], [255, 80, 80, 255]);
}

#[test]
fn default_colors_gray_for_unknown_characters() {
    let colors = default_colors_for_palette("BZ");
    assert_eq!(colors[1], [192, 192, 192, 255]);
}

#[test]
fn test_frame_sampling_more_source_than_target() {
    let source = 100;
    let target = 60;
    let indices: Vec<usize> = (0..target).map(|i| (i * source) / target).collect();
    assert_eq!(indices.len(), 60);
    assert_eq!(indices[0], 0);
    assert_eq!(indices[59], 98);
}

#[test]
fn test_frame_sampling_fewer_source_than_target() {
    let source = 30;
    let target = 60;
    let indices: Vec<usize> = (0..target).map(|i| (i * source) / target).collect();
    assert_eq!(indices.len(), 60);
    assert_eq!(indices[0], 0);
    assert_eq!(indices[1], 0);
}

#[test]
fn frame_plan_keeps_the_last_frame() {
    let indices = sample_frame_indices(100, 60);
    assert_eq!(indices.len(), 60);
    assert_eq!(indices[0], 0);
    assert_eq!(indices[58], 96);
    assert_eq!(indices[59], 99);
    let grid_type = GridType::Cartesian3D { width: 1, height: 1, depth: 1 };
    let exporter = VideoExporter::new(SimulationArchive::new(grid_type, "B".to_string(), vec![vec![0]]), vec![], 8);
    assert_eq!(exporter.frame_plan(4).unwrap_err(), ExportRefusal::UnsupportedGridType(grid_type));
    let mut empty = VideoExporter::with_default_colors(
        SimulationArchive::new(GridType::Cartesian2D { width: 1, height: 1 }, "B".to_string(), vec![]),
        8,
    );
    assert_eq!(empty.frame_plan(4).unwrap_err(), ExportRefusal::NoFrames);
    empty.set_background([1, 2, 3, 4]);
    assert_eq!(empty.background, [1, 2, 3, 4]);
}
