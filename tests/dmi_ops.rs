use dmi::chunk::RawGenericChunk;
use dmi::dirs::Dirs;
use dmi::emit::emit_manifest;
use dmi::error::DmiError;
use dmi::icon::{dir_to_dmi_index, DmiVersion, Hotspot, Icon, IconState, Looping, Tile};
use dmi::iend::RawIendChunk;
use dmi::line::parse_dmi_line;
use dmi::manifest::parse_manifest;
use dmi::ztxt::{create_ztxt_chunk, RawZtxtData};
use dmi::RawDmi;

fn tile(width: u32, height: u32, seed: u8) -> Tile {
    let mut pixels = Vec::new();
    for i in 0..(width * height) {
        pixels.push(seed);
        pixels.push((i % 251) as u8);
        pixels.push(seed.wrapping_mul(3));
        pixels.push(255);
    }
    Tile { width, height, pixels }
}

fn state(name: &str, dirs: u8, frames: u32, width: u32, height: u32) -> IconState {
    let mut st = IconState::default();
    st.name = name.to_string();
    st.dirs = dirs;
    st.frames = frames;
    for i in 0..(dirs as u32 * frames) {
        st.images.push(tile(width, height, i as u8 + 1));
    }
    st
}

fn icon(width: u32, height: u32, states: Vec<IconState>) -> Icon {
    Icon { version: DmiVersion::default(), width, height, states }
}

fn saved(icon: &Icon) -> Vec<u8> {
    let mut out = Vec::new();
    let n = icon.save(&mut out).expect("save");
    assert_eq!(n, out.len());
    out
}

fn manifest_of(icon: &Icon) -> String {
    String::from_utf8(emit_manifest(&icon.to_meta()).expect("manifest")).unwrap()
}

fn framed_chunk(kind: &[u8; 4], data: &[u8]) -> Vec<u8> {
    let mut b = Vec::new();
    b.extend_from_slice(&(data.len() as u32).to_be_bytes());
    b.extend_from_slice(kind);
    b.extend_from_slice(data);
    let mut covered = kind.to_vec();
    covered.extend_from_slice(data);
    b.extend_from_slice(&crc32fast::hash(&covered).to_be_bytes());
    b
}

#[test]
fn minimal_round_trip() {
    let mut st = IconState::default();
    st.images.push(Tile { width: 32, height: 32, pixels: vec![0u8; 32 * 32 * 4] });
    let source = icon(32, 32, vec![st]);
    let bytes = saved(&source);
    let loaded = Icon::load(&bytes).expect("load");
    assert_eq!(loaded, source);
}

#[test]
fn multi_dir_frame_state() {
    let mut st = state("walk", 4, 2, 4, 3);
    st.delay = Some(vec!["1".to_string(), "2".to_string()]);
    let source = icon(4, 3, vec![st]);
    let text = manifest_of(&source);
    assert!(text.contains("\tdirs = 4\n\tframes = 2\n\tdelay = 1,2\n"));
    let loaded = Icon::load(&saved(&source)).expect("load");
    assert_eq!(loaded, source);
    let s = &loaded.states[0];
    assert_eq!(s.images[0], source.states[0].images[0]);
    assert_eq!(s.images[3], source.states[0].images[3]);
    assert_eq!(s.images[7], source.states[0].images[7]);
}

#[test]
fn looping_lines() {
    let mut st = state("a", 1, 2, 2, 2);
    st.delay = Some(vec!["1".to_string(), "1.5".to_string()]);
    st.loop_flag = Looping::NTimes(3);
    let mut st2 = state("b", 1, 2, 2, 2);
    st2.delay = Some(vec!["0.5".to_string(), "2".to_string()]);
    st2.loop_flag = Looping::Indefinitely;
    let source = icon(2, 2, vec![st, st2]);
    let text = manifest_of(&source);
    assert!(text.contains("state = \"a\"\n\tdirs = 1\n\tframes = 2\n\tdelay = 1,1.5\n\tloop = 3\n"));
    assert!(text.contains("state = \"b\"\n\tdirs = 1\n\tframes = 2\n\tdelay = 0.5,2\nstate") || text.contains("state = \"b\"\n\tdirs = 1\n\tframes = 2\n\tdelay = 0.5,2\n# END DMI"));
    let loaded = Icon::load_meta(&saved(&source)).expect("load_meta");
    assert_eq!(loaded.states[0].loop_flag, Looping::NTimes(3));
    assert_eq!(loaded.states[1].loop_flag, Looping::Indefinitely);
}

#[test]
fn hotspot_line() {
    let mut st = state("cursor", 1, 1, 8, 8);
    st.hotspot = Some(Hotspot { x: 5, y: 7 });
    let source = icon(8, 8, vec![st]);
    assert!(manifest_of(&source).contains("\thotspot = 5,7,1\n"));
    let loaded = Icon::load_meta(&saved(&source)).expect("load_meta");
    assert_eq!(loaded.states[0].hotspot, Some(Hotspot { x: 5, y: 7 }));
}

#[test]
fn unknown_key_is_kept() {
    let text = b"# BEGIN DMI\nversion = 4.0\n\twidth = 32\n\theight = 32\nstate = \"x\"\n\tdirs = 1\n\tframes = 1\n\tcustom = 42\n# END DMI\n";
    let m = parse_manifest(text).expect("parse");
    let unknown = m.states[0].unknown.clone().expect("unknown settings");
    assert_eq!(unknown, vec![(b"\tcustom".to_vec(), b"42".to_vec())]);
    let icon = Icon::from_manifest(text, 32, 32).expect("icon");
    assert_eq!(
        icon.states[0].unknown_settings,
        Some(vec![("\tcustom".to_string(), "42".to_string())])
    );
    let mut full = icon.clone();
    full.states[0].images.push(tile(32, 32, 9));
    assert!(manifest_of(&full).contains("\tcustom = 42\n"));
    let reloaded = Icon::load_meta(&saved(&full)).expect("load_meta");
    assert_eq!(reloaded.states[0].unknown_settings, icon.states[0].unknown_settings);
}

#[test]
fn escaped_names_round_trip() {
    let name = "\\\\ \\    \\\"\\t\\st\\\\\\T+e=5235=!\"";
    let names = ["0_1", "1_1", "", name];
    let states = names.iter().map(|n| state(n, 1, 1, 4, 4)).collect();
    let source = icon(4, 4, states);
    let text = manifest_of(&source);
    assert!(text.contains("state = \"\\\\\\\\ \\\\    \\\\\\\"\\\\t\\\\st\\\\\\\\\\\\T+e=5235=!\\\"\"\n"));
    let loaded = Icon::load_meta(&saved(&source)).expect("load_meta");
    assert_eq!(loaded.version, DmiVersion::default());
    assert_eq!(loaded.width, 4);
    assert_eq!(loaded.states.len(), 4);
    for (st, n) in loaded.states.iter().zip(names.iter()) {
        assert_eq!(st.name, *n);
        assert_eq!(st.dirs, 1);
        assert_eq!(st.frames, 1);
        assert_eq!(st.delay, None);
        assert_eq!(st.loop_flag, Looping::Indefinitely);
        assert!(!st.rewind);
        assert!(!st.movement);
        assert_eq!(st.hotspot, None);
        assert_eq!(st.unknown_settings, None);
        assert!(st.images.is_empty());
    }
}

#[test]
fn missing_delay_fails_to_save() {
    let st = state("anim", 1, 2, 2, 2);
    let mut out = Vec::new();
    assert_eq!(icon(2, 2, vec![st.clone()]).save(&mut out), Err(DmiError::Generic));
    assert!(out.is_empty());
    let mut short = st;
    short.delay = Some(vec!["1".to_string()]);
    assert_eq!(icon(2, 2, vec![short]).save(&mut out), Err(DmiError::Generic));
}

#[test]
fn wrong_tile_count_fails_to_save() {
    let mut st = state("x", 4, 1, 2, 2);
    st.images.pop();
    let mut out = Vec::new();
    assert_eq!(icon(2, 2, vec![st]).save(&mut out), Err(DmiError::Generic));
}

#[test]
fn zero_states_make_one_cell() {
    let source = icon(32, 32, vec![]);
    let bytes = saved(&source);
    let raw = RawDmi::load(&bytes).expect("raw");
    let d = &raw.chunk_ihdr.data;
    assert_eq!(&d[0..8], &[0, 0, 0, 32, 0, 0, 0, 32]);
    let loaded = Icon::load(&bytes).expect("load");
    assert_eq!(loaded, source);
}

#[test]
fn atlas_is_about_square() {
    let st = state("five", 1, 5, 2, 2);
    let mut st = st;
    st.delay = Some(vec!["1".to_string(); 5]);
    let bytes = saved(&icon(2, 2, vec![st]));
    let raw = RawDmi::load(&bytes).expect("raw");
    let d = &raw.chunk_ihdr.data;
    // three columns, two rows of cells
    assert_eq!(&d[0..8], &[0, 0, 0, 6, 0, 0, 0, 4]);
}

#[test]
fn chunk_decodes_and_encodes_identically() {
    let framed = framed_chunk(b"tEXt", b"hello");
    let c = RawGenericChunk::load(&framed).expect("chunk");
    assert_eq!(c.data, b"hello".to_vec());
    let mut out = Vec::new();
    assert_eq!(c.save(&mut out), framed.len());
    assert_eq!(out, framed);
}

#[test]
fn chunk_errors() {
    assert_eq!(RawGenericChunk::load(&[0u8; 11]), Err(DmiError::Truncated));
    let bad_type = framed_chunk(b"t3Xt", b"x");
    assert!(matches!(RawGenericChunk::load(&bad_type), Err(DmiError::InvalidChunkType { .. })));
    let mut corrupt = framed_chunk(b"tEXt", b"hello");
    corrupt[9] ^= 1;
    assert!(matches!(RawGenericChunk::load(&corrupt), Err(DmiError::CrcMismatch { .. })));
}

#[test]
fn corrupted_file_fails_with_crc_mismatch() {
    let bytes = saved(&icon(4, 4, vec![state("x", 1, 1, 4, 4)]));
    // flip one byte of the IHDR data
    let mut b = bytes.clone();
    b[17] ^= 0x40;
    assert!(matches!(Icon::load(&b), Err(DmiError::CrcMismatch { .. })));
    // flip the last byte of the last IDAT chunk's data
    let mut b = bytes.clone();
    let at = b.len() - 12 - 5;
    b[at] ^= 0x01;
    assert!(matches!(Icon::load(&b), Err(DmiError::CrcMismatch { .. })));
}

#[test]
fn missing_ztxt_fails() {
    let bytes = saved(&icon(4, 4, vec![state("x", 1, 1, 4, 4)]));
    let raw = RawDmi::load(&bytes).expect("raw");
    let mut plain = Vec::new();
    raw.save(&mut plain, false);
    assert_eq!(Icon::load(&plain), Err(DmiError::MissingZtxt));
    assert_eq!(Icon::load_meta(&plain), Err(DmiError::MissingZtxt));
}

#[test]
fn save_without_ztxt_then_with_it() {
    let bytes = saved(&icon(4, 4, vec![state("x", 1, 1, 4, 4)]));
    let raw = RawDmi::load(&bytes).expect("raw");
    let mut all = Vec::new();
    let n = raw.save(&mut all, true);
    assert_eq!(all, bytes);
    assert_eq!(n, raw.output_buffer_size(true));
    let mut plain = Vec::new();
    assert_eq!(raw.save(&mut plain, false), raw.output_buffer_size(false));
}

#[test]
fn signature_and_size_errors() {
    assert_eq!(RawDmi::load(&[137u8, 80, 78]), Err(DmiError::Truncated));
    assert_eq!(RawDmi::load(&[0u8; 10]), Err(DmiError::InvalidSignature));
    assert_eq!(RawDmi::load(&[0u8; 80]), Err(DmiError::InvalidSignature));
    assert_eq!(RawDmi::load_meta(&[0u8; 80]), Err(DmiError::InvalidSignature));
}

fn gray_value(i: usize) -> u8 {
    (i * 37 % 256) as u8
}

fn gray_dmi(alpha: bool) -> Vec<u8> {
    let mut png_bytes = Vec::new();
    {
        let mut enc = png::Encoder::new(&mut png_bytes, 8, 8);
        if alpha {
            enc.set_color(png::ColorType::GrayscaleAlpha);
        } else {
            enc.set_color(png::ColorType::Grayscale);
        }
        enc.set_depth(png::BitDepth::Eight);
        let mut w = enc.write_header().unwrap();
        let mut data = Vec::new();
        for i in 0..64 {
            data.push(gray_value(i));
            if alpha {
                data.push(200 - i as u8);
            }
        }
        w.write_image_data(&data).unwrap();
    }
    let mut raw = RawDmi::load(&png_bytes).expect("png");
    let manifest = b"# BEGIN DMI\nversion = 4.0\n\twidth = 4\n\theight = 4\nstate = \"g\"\n\tdirs = 4\n\tframes = 1\n# END DMI\n";
    raw.chunk_ztxt = Some(create_ztxt_chunk(manifest).expect("ztxt"));
    let mut out = Vec::new();
    raw.save(&mut out, true);
    out
}

#[test]
fn grayscale_input_loads_as_rgba() {
    let icon = Icon::load(&gray_dmi(false)).expect("gray");
    let t = &icon.states[0].images;
    assert_eq!(t.len(), 4);
    assert_eq!(&t[0].pixels[0..8], &[0, 0, 0, 255, 37, 37, 37, 255]);
    let g = gray_value(4);
    assert_eq!(&t[1].pixels[0..4], &[g, g, g, 255]);
    let g = gray_value(32);
    assert_eq!(&t[2].pixels[0..4], &[g, g, g, 255]);
    let icon = Icon::load(&gray_dmi(true)).expect("gray alpha");
    let t = &icon.states[0].images;
    let g = gray_value(36);
    assert_eq!(&t[3].pixels[0..4], &[g, g, g, 200 - 36]);
}

#[test]
fn geometry_mismatch() {
    let text = b"# BEGIN DMI\nversion = 4.0\n\twidth = 3\n\theight = 3\nstate = \"x\"\n\tdirs = 1\n\tframes = 1\n# END DMI\n";
    assert_eq!(Icon::from_manifest(text, 4, 3).err(), Some(DmiError::GeometryMismatch));
    let text = b"# BEGIN DMI\nversion = 4.0\n\twidth = 2\n\theight = 2\nstate = \"x\"\n\tdirs = 4\n\tframes = 1\n# END DMI\n";
    assert_eq!(Icon::from_manifest(text, 2, 2).err(), Some(DmiError::GeometryMismatch));
    assert!(Icon::from_manifest(text, 4, 4).is_ok());
}

#[test]
fn manifest_defaults_and_errors() {
    let m = parse_manifest(b"# BEGIN DMI\nversion = 4.0\n# END DMI\n").expect("parse");
    assert_eq!((m.width, m.height), (32, 32));
    let m = parse_manifest(b"# BEGIN DMI\r\nversion = 4.0\r\n\theight = 7\r\n# END DMI").expect("parse");
    assert_eq!((m.width, m.height), (32, 7));
    assert_eq!(parse_manifest(b"# BEGIN\n").err(), Some(DmiError::ManifestSyntax));
    assert_eq!(parse_manifest(b"# BEGIN DMI\nversion = 4.0\n\twidth = 0\n# END DMI\n").err(), Some(DmiError::Generic));
    assert_eq!(parse_manifest(b"# BEGIN DMI\nversion = 4.0\n\twidth = x\n# END DMI\n").err(), Some(DmiError::ParseInt));
    let no_end = b"# BEGIN DMI\nversion = 4.0\nstate = \"a\"\n\tdirs = 1\n\tframes = 1\n";
    assert_eq!(parse_manifest(no_end).err(), Some(DmiError::ManifestSyntax));
    let bad_dirs = b"# BEGIN DMI\nversion = 4.0\nstate = \"a\"\n\tdirs = 3\n\tframes = 1\n# END DMI\n";
    assert_eq!(parse_manifest(bad_dirs).err(), Some(DmiError::ManifestSyntax));
    let no_frames = b"# BEGIN DMI\nversion = 4.0\nstate = \"a\"\n\tdirs = 1\n# END DMI\n";
    assert_eq!(parse_manifest(no_frames).err(), Some(DmiError::ManifestSyntax));
    let bad_delay = b"# BEGIN DMI\nversion = 4.0\nstate = \"a\"\n\tdirs = 1\n\tframes = 2\n\tdelay = 1,x\n# END DMI\n";
    assert_eq!(parse_manifest(bad_delay).err(), Some(DmiError::ParseFloat));
    let bad_hotspot = b"# BEGIN DMI\nversion = 4.0\nstate = \"a\"\n\tdirs = 1\n\tframes = 1\n\thotspot = 1,2\n# END DMI\n";
    assert_eq!(parse_manifest(bad_hotspot).err(), Some(DmiError::ManifestSyntax));
}

#[test]
fn dmi_line_rules() {
    assert_eq!(parse_dmi_line(b"version = 4.0", false, false), Ok((b"version".to_vec(), b"4.0".to_vec())));
    assert_eq!(parse_dmi_line(b"version=4.0", false, false), Err(DmiError::BlockEntry));
    assert_eq!(parse_dmi_line(b"a b = c", false, false), Err(DmiError::BlockEntry));
    assert_eq!(parse_dmi_line(b"k = ", false, false), Err(DmiError::BlockEntry));
    assert_eq!(parse_dmi_line(b"k = a\\b", false, false), Err(DmiError::Generic));
    assert_eq!(parse_dmi_line(b"k = \"a\"", false, false), Err(DmiError::Generic));
    assert_eq!(parse_dmi_line(b"k = a b", false, false), Err(DmiError::BlockEntry));
    assert_eq!(parse_dmi_line(b"k = a\tb", false, false), Err(DmiError::BlockEntry));
    assert_eq!(parse_dmi_line(b"state = \"a \\\"b\\\\\"", true, true), Ok((b"state".to_vec(), b"a \"b\\".to_vec())));
    assert_eq!(parse_dmi_line(b"state = \"\"", true, true), Ok((b"state".to_vec(), Vec::new())));
    assert_eq!(parse_dmi_line(b"state = abc", true, true), Err(DmiError::Generic));
    assert_eq!(parse_dmi_line(b"state = \"a\"b\"", true, true), Err(DmiError::BlockEntry));
    assert_eq!(parse_dmi_line(b"state = \"abc", true, true), Err(DmiError::BlockEntry));
    assert_eq!(parse_dmi_line(b"state = \"x=\ty\"", true, true), Ok((b"state".to_vec(), b"x=\ty".to_vec())));
}

#[test]
fn ztxt_data_round_trip() {
    let data = [68u8, 101, 0, 0, 1, 2, 3];
    let d = RawZtxtData::load(&data).expect("ztxt");
    assert_eq!(d.keyword, vec![68, 101]);
    assert_eq!(d.compressed_text, vec![1, 2, 3]);
    let mut out = Vec::new();
    d.save(&mut out);
    assert_eq!(out, data.to_vec());
    assert_eq!(RawZtxtData::load(&[1, 2, 3]), Err(DmiError::Truncated));
    assert_eq!(RawZtxtData::load(&[1, 0, 5, 9]), Err(DmiError::UnsupportedCompression { method: 5 }));
}

#[test]
fn ztxt_compresses_manifest() {
    let z = create_ztxt_chunk(b"# BEGIN DMI\n").expect("ztxt");
    assert_eq!(z.data.keyword, b"Description".to_vec());
    assert_ne!(z.data.compressed_text, b"# BEGIN DMI\n".to_vec());
    assert_eq!(z.data.decode().expect("inflate"), b"# BEGIN DMI\n".to_vec());
}

#[test]
fn iend_chunk() {
    let iend = RawIendChunk::new();
    assert_eq!(iend.length(), 12);
    let mut out = Vec::new();
    iend.save(&mut out);
    assert_eq!(out, vec![0, 0, 0, 0, 73, 69, 78, 68, 174, 66, 96, 130]);
    assert_eq!(RawIendChunk::load(&out), Ok(iend));
    assert_eq!(RawIendChunk::load(&out[1..]), Err(DmiError::UnexpectedChunk));
}

#[test]
fn directions_and_lookup() {
    assert_eq!(dir_to_dmi_index(&Dirs::SOUTH), Some(0));
    assert_eq!(dir_to_dmi_index(&Dirs::NORTH), Some(1));
    assert_eq!(dir_to_dmi_index(&Dirs::NORTHWEST), Some(7));
    let st = state("s", 4, 2, 1, 1);
    assert_eq!(st.get_image(&Dirs::SOUTH, 1), Ok(&st.images[0]));
    assert_eq!(st.get_image(&Dirs::NORTH, 2), Ok(&st.images[3]));
    assert_eq!(st.get_image(&Dirs::NORTHEAST, 1), Err(DmiError::IconState));
    assert_eq!(st.get_image(&Dirs::SOUTH, 3), Err(DmiError::IconState));
    assert_eq!(st.get_image(&Dirs::SOUTH, 0), Err(DmiError::IconState));
}

#[test]
fn looping_values() {
    assert_eq!(Looping::new(0), Looping::Indefinitely);
    assert_eq!(Looping::new(4), Looping::NTimes(4));
    assert_eq!(Looping::NTimes(4).unwrap(), 4);
    assert_eq!(Looping::Indefinitely.unwrap_or_default(), 0);
    assert_eq!(Looping::Indefinitely.unwrap_or(9), 9);
    assert_eq!(Looping::NTimes(2).unwrap_or(9), 2);
}

#[test]
fn load_meta_matches_load() {
    let mut st = state("walk", 4, 2, 3, 3);
    st.delay = Some(vec!["1".to_string(), "2.5".to_string()]);
    st.rewind = true;
    st.hotspot = Some(Hotspot { x: 1, y: 2 });
    st.unknown_settings = Some(vec![("\tfoo".to_string(), "bar".to_string())]);
    let bytes = saved(&icon(3, 3, vec![st, state("still", 1, 1, 3, 3)]));
    let full = Icon::load(&bytes).expect("load");
    let light = Icon::load_meta(&bytes).expect("load_meta");
    let mut stripped = full.clone();
    for s in stripped.states.iter_mut() {
        s.images.clear();
    }
    assert_eq!(stripped, light);
    assert_eq!(full.states[0].images.len(), 8);
}

#[test]
fn late_ztxt_fails_to_load() {
    let bytes = saved(&icon(4, 4, vec![state("x", 1, 1, 4, 4)]));
    let raw = RawDmi::load(&bytes).expect("raw");
    let mut late = Vec::new();
    let mut moved = raw.clone();
    moved.chunk_ztxt = None;
    moved.save(&mut late, false);
    // put the zTXt chunk right before IEND, after every IDAT chunk
    let mut z = Vec::new();
    raw.chunk_ztxt.as_ref().unwrap().save(&mut z);
    let at = late.len() - 12;
    late.splice(at..at, z);
    assert!(RawDmi::load(&late).is_ok());
    assert_eq!(Icon::load(&late), Err(DmiError::MissingZtxt));
    assert_eq!(Icon::load_meta(&late), Err(DmiError::MissingZtxt));
}

#[test]
fn ztxt_chunk_reloads() {
    let z = create_ztxt_chunk(b"# BEGIN DMI\nversion = 4.0\n# END DMI\n").expect("ztxt");
    let mut w = Vec::new();
    z.save(&mut w);
    assert_eq!(dmi::ztxt::RawZtxtChunk::load(&w), Ok(z));
    let mut bad = w.clone();
    let last = bad.len() - 1;
    bad[last] ^= 1;
    assert!(matches!(dmi::ztxt::RawZtxtChunk::load(&bad), Err(DmiError::CrcMismatch { .. })));
}

#[test]
fn repeated_unknown_key_fails_to_save() {
    let mut st = state("x", 1, 1, 2, 2);
    st.unknown_settings = Some(vec![("\ta".to_string(), "1".to_string()), ("\ta".to_string(), "2".to_string())]);
    let mut out = Vec::new();
    assert_eq!(icon(2, 2, vec![st]).save(&mut out), Err(DmiError::Generic));
}

#[test]
fn signed_and_exponent_delays_are_read() {
    let text = b"# BEGIN DMI\nversion = 4.0\nstate = \"a\"\n\tdirs = 1\n\tframes = 3\n\tdelay = -1,2.5e1,+.5E-2\n# END DMI\n";
    let m = parse_manifest(text).expect("parse");
    assert_eq!(m.states[0].delay, Some(vec![b"-1".to_vec(), b"2.5e1".to_vec(), b"+.5E-2".to_vec()]));
    let bad = b"# BEGIN DMI\nversion = 4.0\nstate = \"a\"\n\tdirs = 1\n\tframes = 2\n\tdelay = 1e,2\n# END DMI\n";
    assert_eq!(parse_manifest(bad).err(), Some(DmiError::ParseFloat));
}

#[test]
fn meta_prefix_length() {
    let bytes = saved(&icon(4, 4, vec![state("x", 1, 1, 4, 4)]));
    let need = RawDmi::meta_bytes_needed(&bytes) as usize;
    assert!(need <= bytes.len());
    assert_eq!(Icon::load_meta(&bytes[..need.max(72)]), Icon::load_meta(&bytes));
    assert_eq!(RawDmi::meta_bytes_needed(&bytes[..10]), 41);
}

fn tiny_png() -> Vec<u8> {
    let mut png_bytes = Vec::new();
    {
        let mut enc = png::Encoder::new(&mut png_bytes, 1, 1);
        enc.set_color(png::ColorType::Grayscale);
        enc.set_depth(png::BitDepth::Eight);
        let mut w = enc.write_header().unwrap();
        w.write_image_data(&[7]).unwrap();
    }
    png_bytes
}

#[test]
fn small_png_without_ztxt() {
    let b = tiny_png();
    assert!(b.len() < 72);
    assert!(RawDmi::load(&b).is_ok());
    assert_eq!(Icon::load(&b), Err(DmiError::MissingZtxt));
    assert_eq!(Icon::load_meta(&b), Err(DmiError::MissingZtxt));
}

#[test]
fn small_png_with_bad_crc() {
    let mut b = tiny_png();
    b[20] ^= 1; // inside the IHDR data
    assert!(matches!(RawDmi::load(&b), Err(DmiError::CrcMismatch { .. })));
    assert!(matches!(Icon::load(&b), Err(DmiError::CrcMismatch { .. })));
}

#[test]
fn cut_off_chunk_header_is_truncated() {
    let b = tiny_png();
    // drop the IEND chunk but keep five of its bytes
    let cut = &b[..b.len() - 7];
    assert_eq!(RawDmi::load(cut), Err(DmiError::Truncated));
    // ending exactly at a chunk boundary, before IEND
    let at_boundary = &b[..b.len() - 12];
    assert_eq!(RawDmi::load(at_boundary), Err(DmiError::MissingIend));
}

#[test]
fn chunk_length_field_must_count_the_data() {
    let mut framed = framed_chunk(b"tEXt", b"hello");
    framed[3] = 4;
    assert_eq!(RawGenericChunk::load(&framed), Err(DmiError::UnexpectedChunk));
}

#[test]
fn load_meta_ignores_bytes_after_ztxt() {
    let bytes = saved(&icon(4, 4, vec![state("x", 1, 1, 4, 4)]));
    let mut changed = bytes.clone();
    let at = changed.len() - 12 - 5;
    changed[at] ^= 0x55;
    assert_eq!(Icon::load_meta(&changed), Icon::load_meta(&bytes));
    assert!(Icon::load_meta(&bytes).is_ok());
    assert!(Icon::load(&changed).is_err());
}
