use raytracer::bands::band_rows;
use raytracer::framebuffer::Framebuffer;
use raytracer::perlin::{Perlin, POINT_COUNT};

#[test]
fn bands_cover_rows_exactly_once() {
    for (h, j) in [(400usize, 32usize), (225, 32), (7, 7), (10, 3), (1, 1), (1080, 32)] {
        let mut seen = vec![0u32; h];
        let mut prev_end = 0usize;
        for i in 0..j {
            let (b, e) = band_rows(h, j, i);
            assert_eq!(b, prev_end);
            assert!(b < e, "band {} of {} over {} rows is empty", i, j, h);
            for r in b..e {
                seen[r] += 1;
            }
            prev_end = e;
        }
        assert_eq!(prev_end, h);
        assert!(seen.iter().all(|&c| c == 1));
    }
}

#[test]
fn band_rows_exact_values() {
    assert_eq!(band_rows(400, 32, 0), (0, 12));
    assert_eq!(band_rows(400, 32, 1), (12, 25));
    assert_eq!(band_rows(400, 32, 31), (387, 400));
    assert_eq!(band_rows(10, 3, 1), (3, 6));
}

#[test]
fn more_bands_than_rows_leaves_some_empty() {
    let sizes: Vec<usize> = (0..5).map(|i| {
        let (b, e) = band_rows(2, 5, i);
        e - b
    }).collect();
    assert_eq!(sizes, vec![0, 0, 1, 0, 1]);
}

#[test]
fn new_framebuffer_is_black() {
    let fb = Framebuffer::new(4, 3);
    assert_eq!(fb.data.len(), 36);
    assert!(fb.data.iter().all(|&b| b == 0));
}

#[test]
fn put_and_get_pixel() {
    let mut fb = Framebuffer::new(4, 3);
    fb.put_pixel(2, 1, 10, 20, 30);
    assert_eq!(fb.get_pixel(2, 1), (10, 20, 30));
    assert_eq!(&fb.data[18..21], &[10, 20, 30]);
    assert_eq!(fb.get_pixel(1, 2), (0, 0, 0));
}

fn filled_tile(width: u32, rows: u32, shade: u8) -> Framebuffer {
    let mut t = Framebuffer::new(width, rows);
    for y in 0..rows {
        for x in 0..width {
            t.put_pixel(x, y, shade, y as u8, x as u8);
        }
    }
    t
}

#[test]
fn tiles_land_at_their_rows_in_any_order() {
    let (w, h, jobs) = (5u32, 11u32, 4usize);
    let tiles: Vec<(usize, Framebuffer)> = (0..jobs)
        .map(|i| {
            let (b, e) = band_rows(h as usize, jobs, i);
            (b, filled_tile(w, (e - b) as u32, 100 + i as u8))
        })
        .collect();
    let mut forward = Framebuffer::new(w, h);
    for (b, t) in tiles.iter() {
        forward.place_tile(*b as u32, t);
    }
    let mut backward = Framebuffer::new(w, h);
    for (b, t) in tiles.iter().rev() {
        backward.place_tile(*b as u32, t);
    }
    assert_eq!(forward.data, backward.data);
    for i in 0..jobs {
        let (b, e) = band_rows(h as usize, jobs, i);
        for y in b..e {
            for x in 0..w {
                assert_eq!(forward.get_pixel(x, y as u32), (100 + i as u8, (y - b) as u8, x as u8));
            }
        }
    }
}

#[test]
fn place_tile_keeps_other_rows() {
    let mut fb = filled_tile(3, 4, 7);
    let tile = filled_tile(3, 1, 9);
    fb.place_tile(2, &tile);
    assert_eq!(fb.get_pixel(1, 2), (9, 0, 1));
    assert_eq!(fb.get_pixel(1, 1), (7, 1, 1));
    assert_eq!(fb.get_pixel(1, 3), (7, 3, 1));
}

#[test]
fn oriented_turns_the_image_upside_down() {
    let (w, h) = (4u32, 3u32);
    let mut fb = Framebuffer::new(w, h);
    for y in 0..h {
        for x in 0..w {
            fb.put_pixel(x, y, x as u8, y as u8, (x * 10 + y) as u8);
        }
    }
    let out = fb.oriented();
    assert_eq!((out.width, out.height), (w, h));
    for y in 0..h {
        for x in 0..w {
            assert_eq!(out.get_pixel(x, y), fb.get_pixel(x, h - 1 - y));
        }
    }
    assert_ne!(out.data, fb.data);
}

fn assert_is_perm(p: &[usize]) {
    let mut s = p.to_vec();
    s.sort();
    assert_eq!(s, (0..POINT_COUNT).collect::<Vec<_>>());
}

#[test]
fn perlin_tables_are_permutations() {
    let t = Perlin::perlin_generate_perm();
    assert_is_perm(&t);
    let mut p: Vec<usize> = (0..POINT_COUNT).collect();
    Perlin::permute(&mut p, POINT_COUNT as usize);
    assert_is_perm(&p);
}

#[test]
fn perlin_hash_stays_in_range_and_wraps() {
    let perlin = Perlin::new();
    for (i, j, k) in [(0, 0, 0), (-1, 5, 300), (i32::MIN, i32::MAX, -256), (255, 256, 511)] {
        assert!(perlin.hash(i, j, k) < POINT_COUNT);
    }
    // Only the low eight bits of each coordinate matter.
    assert_eq!(perlin.hash(3, -2, 7), perlin.hash(3 + 256, -2 - 512, 7 + 1024));
}
