use image::Rgba;
use image::RgbaImage;
use sliding_puzzle::board::PuzzleBoard;
use sliding_puzzle::compositor::change_source;
use sliding_puzzle::compositor::placeholder_picture;
use sliding_puzzle::compositor::render;
use sliding_puzzle::compositor::Picture;

fn pattern(width: u32, height: u32) -> Picture {
    Picture {
        image: RgbaImage::from_fn(width, height, |x, y| {
            Rgba([x as u8, y as u8, (x * 7 + y * 13) as u8, 255])
        }),
    }
}

const BLANK: Rgba<u8> = Rgba([0, 0, 0, 0]);

#[test]
fn render_solved_board_reproduces_picture() {
    let src = pattern(30, 30);
    let b = PuzzleBoard::new(3, 3);
    let out = render(&b, &src);
    assert_eq!(out.image.dimensions(), (30, 30));
    for y in 0..30 {
        for x in 0..30 {
            let expected = if x >= 20 && y >= 20 {
                BLANK
            } else {
                *src.image.get_pixel(x, y)
            };
            assert_eq!(*out.image.get_pixel(x, y), expected, "pixel {x},{y}");
        }
    }
}

#[test]
fn render_after_move_shifts_tile() {
    let src = pattern(30, 30);
    let mut b = PuzzleBoard::new(3, 3);
    assert_eq!(b.try_move(1, 0), Ok(true));
    let out = render(&b, &src);
    for y in 20..30 {
        for x in 0..10 {
            // tile 8 now in the bottom-right square, its home square is the bottom-middle one
            assert_eq!(*out.image.get_pixel(20 + x, y), *src.image.get_pixel(10 + x, y));
            assert_eq!(*out.image.get_pixel(10 + x, y), BLANK);
        }
    }
}

#[test]
fn render_truncates_leftover_strip() {
    let src = pattern(31, 32);
    let b = PuzzleBoard::new(3, 3);
    let out = render(&b, &src);
    assert_eq!(out.image.dimensions(), (31, 32));
    for x in 0..31 {
        assert_eq!(*out.image.get_pixel(x, 0), BLANK);
        assert_eq!(*out.image.get_pixel(x, 1), BLANK);
    }
    for y in 2..32 {
        assert_eq!(*out.image.get_pixel(30, y), BLANK);
    }
    // bottom-left square holds tile 7, whose home is the bottom-left square of the source
    assert_eq!(*out.image.get_pixel(0, 22), *src.image.get_pixel(0, 20));
    assert_eq!(*out.image.get_pixel(9, 31), *src.image.get_pixel(9, 29));
}

#[test]
fn render_smaller_than_grid_is_blank() {
    let src = pattern(2, 2);
    let b = PuzzleBoard::new(3, 3);
    let out = render(&b, &src);
    assert!(out.image.pixels().all(|p| *p == BLANK));
}

#[test]
fn placeholder_is_white() {
    let p = placeholder_picture(12);
    assert_eq!(p.image.dimensions(), (12, 12));
    assert!(p.image.pixels().all(|p| *p == Rgba([255, 255, 255, 255])));
}

#[test]
fn change_source_fills_square() {
    let src = pattern(40, 20);
    let out = change_source(&src, 10).unwrap();
    assert_eq!(out.image.dimensions(), (10, 10));
    let tall = change_source(&pattern(7, 23), 12).unwrap();
    assert_eq!(tall.image.dimensions(), (12, 12));
    assert!(change_source(&src, 0).is_none());
    assert!(change_source(&pattern(0, 5), 10).is_none());
}
