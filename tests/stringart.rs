use std::f64::consts::PI;
use std::io::Cursor;

use stringart::edges::EdgeSet;
use stringart::error::StringArtError;
use stringart::line::PixelLine;
use stringart::raster::{calculate_line_intensity, draw_line, load_residual, subtract_line, Raster};
use stringart::walk::{generate_walk, Segment};

fn gray_png(w: u32, h: u32, f: impl Fn(u32, u32) -> u8) -> Vec<u8> {
    let img = image::GrayImage::from_fn(w, h, |x, y| image::Luma([f(x, y)]));
    let mut buf = Cursor::new(Vec::new());
    img.write_to(&mut buf, image::ImageFormat::Png).unwrap();
    buf.into_inner()
}

fn uniform(s: u32, v: u8) -> Raster {
    load_residual(&gray_png(s, s, |_, _| v)).unwrap()
}

fn pegs(n: usize, s: u32) -> Vec<(i32, i32)> {
    let s = s as i32;
    (0..n)
        .map(|i| {
            let a = 2.0 * PI * i as f64 / n as f64;
            (
                ((a.cos() * (s - 1) as f64) as i32 + s) / 2,
                ((a.sin() * (s - 1) as f64) as i32 + s) / 2,
            )
        })
        .collect()
}

fn pixels(p1: (i32, i32), p2: (i32, i32)) -> Vec<(i32, i32)> {
    let mut line = PixelLine::new(p1.0, p1.1, p2.0, p2.1);
    let mut out = Vec::new();
    while let Some(p) = line.next() {
        out.push(p);
    }
    out
}

fn run(field: &mut Raster, n: usize, lines: usize, weight: u8) -> Result<Vec<Segment>, StringArtError> {
    let s = field.size().0;
    generate_walk(field, &pegs(n, s), 0, lines, weight)
}

#[test]
fn line_horizontal() {
    assert_eq!(pixels((0, 2), (3, 2)), vec![(0, 2), (1, 2), (2, 2), (3, 2)]);
    assert_eq!(pixels((3, 2), (0, 2)), vec![(3, 2), (2, 2), (1, 2), (0, 2)]);
}

#[test]
fn line_vertical() {
    assert_eq!(pixels((1, 4), (1, 1)), vec![(1, 4), (1, 3), (1, 2), (1, 1)]);
}

#[test]
fn line_diagonal() {
    assert_eq!(pixels((0, 0), (3, 3)), vec![(0, 0), (1, 1), (2, 2), (3, 3)]);
    assert_eq!(pixels((3, 0), (0, 3)), vec![(3, 0), (2, 1), (1, 2), (0, 3)]);
}

#[test]
fn line_single_point() {
    assert_eq!(pixels((5, 7), (5, 7)), vec![(5, 7)]);
}

#[test]
fn line_shallow_and_steep() {
    assert_eq!(pixels((0, 0), (4, 1)), vec![(0, 0), (1, 0), (2, 1), (3, 1), (4, 1)]);
    assert_eq!(pixels((0, 0), (1, 4)), vec![(0, 0), (0, 1), (1, 2), (1, 3), (1, 4)]);
}

#[test]
fn line_all_octants_hold_endpoints_steps_and_no_repeats() {
    let c = (5, 5);
    for &(x, y) in &[(9, 7), (7, 9), (3, 9), (1, 7), (1, 3), (3, 1), (7, 1), (9, 3), (10, 5), (5, 0)] {
        let p = pixels(c, (x, y));
        assert_eq!(p[0], c);
        assert_eq!(*p.last().unwrap(), (x, y));
        let major = ((x - c.0).abs()).max((y - c.1).abs()) as usize;
        assert_eq!(p.len(), major + 1);
        for k in 1..p.len() {
            assert!((p[k].0 - p[k - 1].0).abs() <= 1 && (p[k].1 - p[k - 1].1).abs() <= 1);
            assert!(!p[..k].contains(&p[k]));
        }
    }
}

#[test]
fn line_reversed_axis_and_diagonal_same_pixels() {
    for &(a, b) in &[((0, 0), (6, 0)), ((2, 1), (2, 8)), ((0, 0), (5, 5)), ((6, 0), (0, 6))] {
        let mut f = pixels(a, b);
        let r = pixels(b, a);
        f.reverse();
        assert_eq!(f, r);
    }
}

#[test]
fn line_reversed_half_pixel_tie_differs() {
    // on a tie at half a pixel the walk rounds towards its own start
    assert_eq!(pixels((0, 0), (2, 1)), vec![(0, 0), (1, 1), (2, 1)]);
    assert_eq!(pixels((2, 1), (0, 0)), vec![(2, 1), (1, 0), (0, 0)]);
}

#[test]
fn line_after_end_stays_done() {
    let mut line = PixelLine::new(0, 0, 1, 0);
    assert_eq!(line.next(), Some((0, 0)));
    assert_eq!(line.next(), Some((1, 0)));
    assert_eq!(line.next(), None);
    assert_eq!(line.next(), None);
}

#[test]
fn load_inverts() {
    let data = gray_png(3, 3, |x, y| (10 * x + 50 * y) as u8);
    let f = load_residual(&data).unwrap();
    assert_eq!(f.size(), (3, 3));
    let bytes = f.into_bytes();
    assert_eq!(bytes, vec![255, 245, 235, 205, 195, 185, 155, 145, 135]);
}

#[test]
fn load_rejects_non_square() {
    let data = gray_png(4, 3, |_, _| 0);
    assert!(matches!(load_residual(&data), Err(StringArtError::Shape)));
}

#[test]
fn load_rejects_undecodable() {
    let data = vec![1u8, 2, 3, 4, 5];
    assert!(matches!(load_residual(&data), Err(StringArtError::Decode(_))));
}

#[test]
fn intensity_sums_line() {
    // source 100 everywhere: residual 155
    let f = uniform(5, 100);
    assert_eq!(calculate_line_intensity(&f, (0, 0), (4, 0)), 5 * 155);
    assert_eq!(calculate_line_intensity(&f, (0, 0), (4, 4)), 5 * 155);
    assert_eq!(calculate_line_intensity(&f, (2, 2), (2, 2)), 155);
}

#[test]
fn subtract_saturates_and_never_grows() {
    let mut f = uniform(4, 200); // residual 55
    let before = {
        let g = uniform(4, 200);
        g.into_bytes()
    };
    subtract_line(&mut f, (0, 1), (3, 1), 20);
    assert_eq!(calculate_line_intensity(&f, (0, 1), (3, 1)), 4 * 35);
    subtract_line(&mut f, (0, 1), (3, 1), 50);
    assert_eq!(calculate_line_intensity(&f, (0, 1), (3, 1)), 0);
    let after = f.into_bytes();
    for (a, b) in after.iter().zip(before.iter()) {
        assert!(a <= b);
    }
    assert_eq!(&after[4..8], &[0, 0, 0, 0]);
    assert_eq!(&after[0..4], &[55, 55, 55, 55]);
}

#[test]
fn subtract_single_point_once() {
    let mut f = uniform(3, 0); // residual 255
    subtract_line(&mut f, (1, 1), (1, 1), 5);
    let b = f.into_bytes();
    assert_eq!(b[4], 250);
    assert_eq!(b.iter().filter(|&&v| v == 255).count(), 8);
}

#[test]
fn draw_line_blackens() {
    let mut c = Raster::white(4, 4);
    draw_line(&mut c, (0, 0), (3, 3));
    let b = c.into_bytes();
    for y in 0..4 {
        for x in 0..4 {
            assert_eq!(b[y * 4 + x], if x == y { 0 } else { 255 });
        }
    }
}

#[test]
fn edge_set_is_undirected() {
    let mut e = EdgeSet::new(4);
    assert!(!e.contains(1, 3));
    e.insert(3, 1);
    assert!(e.contains(1, 3));
    assert!(e.contains(3, 1));
    assert!(!e.contains(0, 1));
}

#[test]
fn peg_layout_of_four_on_ten() {
    assert_eq!(pegs(4, 10), vec![(9, 5), (5, 9), (0, 5), (5, 0)]);
}

#[test]
fn scenario_four_pegs_mid_gray() {
    // scores are line sums, so the long chord through the middle wins first
    let mut f = uniform(10, 128);
    let r = run(&mut f, 4, 3, 255).unwrap();
    let p = pegs(4, 10);
    assert_eq!(r, vec![(p[0], p[2]), (p[2], p[1]), (p[1], p[3])]);
}

#[test]
fn scenario_two_pegs_exhausted() {
    let mut f = uniform(10, 0);
    match run(&mut f, 2, 2, 20) {
        Err(StringArtError::ExhaustedPeg(p)) => assert_eq!(p, 1),
        _ => panic!("expected the walk to run out of edges at peg 1"),
    }
}

#[test]
fn scenario_two_pegs_one_line() {
    let mut f = uniform(10, 0);
    let p = pegs(2, 10);
    assert_eq!(run(&mut f, 2, 1, 20).unwrap(), vec![(p[0], p[1])]);
}

#[test]
fn scenario_white_picks_smallest_index() {
    let mut f = uniform(10, 255);
    let r = run(&mut f, 4, 3, 20).unwrap();
    let p = pegs(4, 10);
    assert_eq!(r, vec![(p[0], p[1]), (p[1], p[2]), (p[2], p[0])]);
}

#[test]
fn white_image_six_pegs_tie_break() {
    let mut f = uniform(20, 255);
    let r = run(&mut f, 6, 4, 50).unwrap();
    let p = pegs(6, 20);
    assert_eq!(r, vec![(p[0], p[1]), (p[1], p[2]), (p[2], p[0]), (p[0], p[3])]);
}

#[test]
fn zero_lines_gives_empty_walk() {
    let mut f = uniform(10, 0);
    assert_eq!(run(&mut f, 4, 0, 20).unwrap(), Vec::<Segment>::new());
}

fn portrait() -> Vec<u8> {
    gray_png(40, 40, |x, y| ((x * 7 + y * 3) % 256) as u8)
}

#[test]
fn runs_are_deterministic() {
    let mut a = load_residual(&portrait()).unwrap();
    let mut b = load_residual(&portrait()).unwrap();
    assert_eq!(run(&mut a, 24, 30, 40).unwrap(), run(&mut b, 24, 30, 40).unwrap());
}

#[test]
fn walk_is_continuous_and_edges_unique() {
    let mut f = load_residual(&portrait()).unwrap();
    let p = pegs(24, 40);
    let r = run(&mut f, 24, 40, 40).unwrap();
    assert_eq!(r.len(), 40);
    assert_eq!(r[0].0, p[0]);
    for k in 0..r.len() - 1 {
        assert_eq!(r[k].1, r[k + 1].0);
    }
    let idx = |q: (i32, i32)| p.iter().position(|&x| x == q).unwrap();
    let mut seen = Vec::new();
    for s in &r {
        let (i, j) = (idx(s.0), idx(s.1));
        assert_ne!(i, j);
        let e = (i.min(j), i.max(j));
        assert!(!seen.contains(&e));
        seen.push(e);
    }
}

#[test]
fn walk_residual_never_grows() {
    let mut f = load_residual(&portrait()).unwrap();
    let before = load_residual(&portrait()).unwrap().into_bytes();
    run(&mut f, 24, 20, 60).unwrap();
    let after = f.into_bytes();
    assert!(after.iter().zip(before.iter()).all(|(a, b)| a <= b));
    assert!(after.iter().zip(before.iter()).any(|(a, b)| a < b));
}

#[test]
fn walk_from_other_start() {
    let mut f = uniform(10, 255);
    let p = pegs(4, 10);
    let r = generate_walk(&mut f, &p, 2, 2, 20).unwrap();
    assert_eq!(r, vec![(p[2], p[0]), (p[0], p[1])]);
}

use stringart::coords::{format_coordinates, parse_coordinate_line, parse_i32, split_fields, CoordError};

#[test]
fn fields_split_on_ascii_whitespace() {
    let f = split_fields(b"  12\t-3 \r\n x ");
    assert_eq!(f, vec![b"12".to_vec(), b"-3".to_vec(), b"x".to_vec()]);
    assert!(split_fields(b"").is_empty());
    assert!(split_fields(b" \t ").is_empty());
}

#[test]
fn i32_fields() {
    assert_eq!(parse_i32(b"0"), Some(0));
    assert_eq!(parse_i32(b"+17"), Some(17));
    assert_eq!(parse_i32(b"-2147483648"), Some(i32::MIN));
    assert_eq!(parse_i32(b"2147483647"), Some(i32::MAX));
    assert_eq!(parse_i32(b"2147483648"), None);
    assert_eq!(parse_i32(b"-2147483649"), None);
    assert_eq!(parse_i32(b"99999999999999999999"), None);
    assert_eq!(parse_i32(b"-"), None);
    assert_eq!(parse_i32(b""), None);
    assert_eq!(parse_i32(b"1a"), None);
    assert_eq!(parse_i32(b"007"), Some(7));
}

#[test]
fn coordinate_lines() {
    assert_eq!(parse_coordinate_line(b"1 2 3 4"), Ok(((1, 2), (3, 4))));
    assert_eq!(parse_coordinate_line(b"  10\t-20  30 40  "), Ok(((10, -20), (30, 40))));
    assert_eq!(parse_coordinate_line(b"1 2 3"), Err(CoordError::WrongCount(3)));
    assert_eq!(parse_coordinate_line(b""), Err(CoordError::WrongCount(0)));
    assert_eq!(parse_coordinate_line(b"1 2 3 4 5"), Err(CoordError::WrongCount(5)));
    assert_eq!(parse_coordinate_line(b"1 2 x 4"), Err(CoordError::BadNumber));
}

#[test]
fn coordinates_text_format() {
    let segs: Vec<Segment> = vec![((9, 5), (0, 5)), ((0, -5), (123, 4567))];
    assert_eq!(format_coordinates(&segs), b"9 5 0 5\n0 -5 123 4567\n".to_vec());
    assert!(format_coordinates(&Vec::new()).is_empty());
}

#[test]
fn coordinates_round_trip() {
    let segs: Vec<Segment> = vec![((i32::MIN, i32::MAX), (0, -1)), ((288, 17), (5, 1000))];
    let text = format_coordinates(&segs);
    let back: Vec<Segment> = text
        .split(|&b| b == b'\n')
        .filter(|l| !l.is_empty())
        .map(|l| parse_coordinate_line(l).unwrap())
        .collect();
    assert_eq!(back, segs);
}
