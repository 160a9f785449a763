use markov_junior::helper::{
    apply_legend, load_bitmap, load_resource, load_vox, load_vox_ords, load_vox_resource, ords, split_rule_image,
    ResourceError,
};

#[test]
fn test_ords_simple() {
    let data = vec![100, 200, 100, 300, 200];
    let (ords, count) = ords(&data);
    assert_eq!(count, 3);
    assert_eq!(ords[0], 0);
    assert_eq!(ords[1], 1);
    assert_eq!(ords[2], 0);
    assert_eq!(ords[3], 2);
    assert_eq!(ords[4], 1);
}

#[test]
fn test_ords_all_same() {
    let data = vec![42, 42, 42, 42];
    let (ords, count) = ords(&data);
    assert_eq!(count, 1);
    assert!(ords.iter().all(|&o| o == 0));
}

#[test]
fn test_load_and_split_basic_dijkstra_room() {
    let mut img = image::RgbaImage::new(10, 6);
    for (x, y, p) in img.enumerate_pixels_mut() {
        *p = if x % 5 == 0 || y == 0 { image::Rgba([255, 255, 255, 255]) } else { image::Rgba([0, 0, 0, 255]) };
    }
    let mut bytes: Vec<u8> = Vec::new();
    img.write_to(&mut std::io::Cursor::new(&mut bytes), image::ImageFormat::Png).unwrap();
    let (chars, full_mx, my, mz) = load_resource(&bytes, "BW", true).unwrap();
    let (input, output, mx, _, _) = split_rule_image(&chars, full_mx, my, mz).unwrap();
    assert_eq!(mx, 5);
    assert_eq!(input.len(), 30);
    assert_eq!(output.len(), 30);
}

#[test]
fn test_split_rule_image() {
    let chars = vec!['A', 'B', 'C', 'D', 'E', 'F', 'G', 'H'];
    let (input, output, mx, my, mz) = split_rule_image(&chars, 4, 2, 1).unwrap();
    assert_eq!(mx, 2);
    assert_eq!(my, 2);
    assert_eq!(mz, 1);
    assert_eq!(input, vec!['A', 'B', 'E', 'F']);
    assert_eq!(output, vec!['C', 'D', 'G', 'H']);
}

#[test]
fn test_split_rule_image_odd_width_error() {
    let chars = vec!['A', 'B', 'C'];
    let result = split_rule_image(&chars, 3, 1, 1);
    assert!(matches!(result, Err(ResourceError::OddWidth(3))));
}

#[test]
fn legend_maps_ordinals_and_checks_length() {
    assert_eq!(apply_legend(&[0, 1, 1], 2, "BW").unwrap(), vec!['B', 'W', 'W']);
    assert!(matches!(
        apply_legend(&[0, 1, 2], 3, "BW"),
        Err(ResourceError::LegendTooShort { colors_found: 3, legend_len: 2 })
    ));
}

#[test]
fn bitmap_decoding_rejects_garbage() {
    assert!(matches!(load_bitmap(b"not an image"), Err(ResourceError::ImageError(_))));
    assert!(load_resource(b"not an image", "BW", true).is_err());
}

fn room_png() -> Vec<u8> {
    let mut img = image::RgbaImage::new(10, 6);
    for (x, y, p) in img.enumerate_pixels_mut() {
        *p = if x % 5 == 0 || y == 0 { image::Rgba([255, 255, 255, 255]) } else { image::Rgba([0, 0, 0, 255]) };
    }
    let mut bytes: Vec<u8> = Vec::new();
    img.write_to(&mut std::io::Cursor::new(&mut bytes), image::ImageFormat::Png).unwrap();
    bytes
}

#[test]
fn test_load_bitmap_basic_dijkstra_room() {
    let (pixels, mx, my, mz) = load_bitmap(&room_png()).unwrap();
    assert_eq!(mx, 10);
    assert_eq!(my, 6);
    assert_eq!(mz, 1);
    assert_eq!(pixels.len(), 60);
}

#[test]
fn test_load_resource_with_legend() {
    let (chars, mx, my, mz) = load_resource(&room_png(), "BW", true).unwrap();
    assert_eq!(mx, 10);
    assert_eq!(my, 6);
    assert_eq!(mz, 1);
    assert_eq!(chars.len(), 60);
    assert!(chars.iter().all(|&c| c == 'B' || c == 'W'));
}

fn chunk(id: &[u8; 4], content: &[u8]) -> Vec<u8> {
    let mut v = id.to_vec();
    v.extend_from_slice(&(content.len() as i32).to_le_bytes());
    v.extend_from_slice(&0i32.to_le_bytes());
    v.extend_from_slice(content);
    v
}

/// A MagicaVoxel file of the given size and voxels (x, y, z, palette index).
fn vox_file(size: (i32, i32, i32), voxels: &[(u8, u8, u8, u8)]) -> Vec<u8> {
    let mut size_c = Vec::new();
    size_c.extend_from_slice(&size.0.to_le_bytes());
    size_c.extend_from_slice(&size.1.to_le_bytes());
    size_c.extend_from_slice(&size.2.to_le_bytes());
    let mut xyzi = Vec::new();
    xyzi.extend_from_slice(&(voxels.len() as i32).to_le_bytes());
    for &(x, y, z, c) in voxels {
        xyzi.extend_from_slice(&[x, y, z, c]);
    }
    let mut children = chunk(b"SIZE", &size_c);
    children.extend(chunk(b"XYZI", &xyzi));
    let mut main = b"MAIN".to_vec();
    main.extend_from_slice(&0i32.to_le_bytes());
    main.extend_from_slice(&(children.len() as i32).to_le_bytes());
    main.extend(children);
    let mut file = b"VOX ".to_vec();
    file.extend_from_slice(&150i32.to_le_bytes());
    file.extend(main);
    file
}

#[test]
fn test_load_vox_escher_empty() {
    let bytes = vox_file((3, 3, 3), &[]);
    let result = load_vox(&bytes);
    assert!(result.is_ok(), "Failed to load VOX: {:?}", result);
    let (voxels, mx, my, mz) = result.unwrap();
    assert!(mx > 0, "MX should be positive");
    assert!(my > 0, "MY should be positive");
    assert!(mz > 0, "MZ should be positive");
    assert_eq!(voxels.len(), mx * my * mz);
}

#[test]
fn test_load_vox_escher_line() {
    let bytes = vox_file((3, 3, 3), &[(0, 1, 1, 80), (1, 1, 1, 80), (2, 1, 1, 80)]);
    let result = load_vox(&bytes);
    assert!(result.is_ok(), "Failed to load VOX: {:?}", result);
    let (voxels, mx, my, mz) = result.unwrap();
    let non_empty = voxels.iter().filter(|&&v| v >= 0).count();
    assert!(non_empty > 0, "Line tile should have some voxels");
    assert_eq!((mx, my, mz), (3, 3, 3));
    assert_eq!(voxels[0 + 1 * 3 + 1 * 9], 80);
}

#[test]
fn test_load_vox_ords() {
    let bytes = vox_file((3, 3, 3), &[(0, 1, 1, 80), (1, 1, 1, 12), (2, 1, 1, 80)]);
    let result = load_vox_ords(&bytes);
    assert!(result.is_ok(), "Failed to load VOX: {:?}", result);
    let (ords, mx, my, mz, num_colors) = result.unwrap();
    assert_eq!(ords.len(), mx * my * mz);
    for &o in &ords {
        if o != 0xff {
            assert!((o as usize) < num_colors, "Ordinal {} out of range for {} colors", o, num_colors);
        }
    }
    // Colors are numbered in increasing palette order: 12 first, then 80.
    assert_eq!(num_colors, 2);
    assert_eq!(ords[0 + 3 + 9], 1);
    assert_eq!(ords[1 + 3 + 9], 0);
    assert_eq!(ords[0], 0xff);
}

#[test]
fn test_load_vox_invalid_format() {
    let result = load_vox(b"NOT A VOX FILE");
    assert!(matches!(result, Err(ResourceError::VoxError(_))), "Expected VoxError, got {:?}", result);
}

#[test]
fn vox_files_need_a_size_before_voxels_and_some_voxels() {
    let mut only_size = b"VOX ".to_vec();
    only_size.extend_from_slice(&150i32.to_le_bytes());
    only_size.extend(chunk(b"SIZE", &[2, 0, 0, 0, 2, 0, 0, 0, 2, 0, 0, 0]));
    assert!(matches!(load_vox(&only_size), Err(ResourceError::VoxError(_))));

    let mut early = b"VOX ".to_vec();
    early.extend_from_slice(&150i32.to_le_bytes());
    early.extend(chunk(b"XYZI", &[0, 0, 0, 0]));
    assert!(matches!(load_vox(&early), Err(ResourceError::VoxError(_))));

    // Voxels outside the model are ignored.
    let (v, _, _, _) = load_vox(&vox_file((1, 1, 1), &[(5, 0, 0, 9), (0, 0, 0, 7)])).unwrap();
    assert_eq!(v, vec![7]);
}

#[test]
fn vox_resource_names_cells_by_legend() {
    let bytes = vox_file((2, 1, 1), &[(1, 0, 0, 40)]);
    let (chars, mx, my, mz) = load_vox_resource(&bytes, "BW").unwrap();
    assert_eq!((mx, my, mz), (2, 1, 1));
    assert_eq!(chars, vec!['B', 'B']);
    let two = vox_file((2, 1, 1), &[(0, 0, 0, 3), (1, 0, 0, 40)]);
    assert_eq!(load_vox_resource(&two, "BW").unwrap().0, vec!['B', 'W']);
    assert!(matches!(
        load_vox_resource(&two, "B"),
        Err(ResourceError::LegendTooShort { colors_found: 2, legend_len: 1 })
    ));
}

#[test]
fn vox_errors_pass_through_unchanged() {
    let short = b"VO".to_vec();
    assert!(matches!(load_vox_ords(&short), Err(ResourceError::VoxError(m)) if m == "failed to read magic: failed to fill whole buffer"));
    assert!(matches!(load_vox_resource(&short, "BW"), Err(ResourceError::VoxError(m)) if m == "failed to read magic: failed to fill whole buffer"));
    let mut no_voxels = b"VOX ".to_vec();
    no_voxels.extend_from_slice(&150u32.to_le_bytes());
    assert!(matches!(load_vox_ords(&no_voxels), Err(ResourceError::VoxError(m)) if m == "no XYZI chunk found"));
    assert!(matches!(load_vox_resource(&no_voxels, "BW"), Err(ResourceError::VoxError(m)) if m == "no XYZI chunk found"));
}

#[test]
fn vox_messages_name_what_ran_out() {
    assert!(matches!(load_vox(b"NOPE1234"), Err(ResourceError::VoxError(m)) if m == "invalid magic: [78, 79, 80, 69]"));
    let mut b = b"VOX ".to_vec();
    b.extend_from_slice(&150u32.to_le_bytes());
    b.extend_from_slice(b"SIZE");
    b.extend_from_slice(&12u32.to_le_bytes());
    assert!(matches!(load_vox(&b), Err(ResourceError::VoxError(m)) if m == "failed to read children size: failed to fill whole buffer"));
    b.extend_from_slice(&0u32.to_le_bytes());
    b.extend_from_slice(&2u32.to_le_bytes());
    assert!(matches!(load_vox(&b), Err(ResourceError::VoxError(m)) if m == "failed to read SIZE y: failed to fill whole buffer"));
}
