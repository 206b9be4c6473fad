use schedviz_rust::canvas::{
    draw_dashed_line_v, draw_line_h, draw_line_v, draw_rect, draw_rect_outline, Canvas,
};

const W: (u8, u8, u8) = (255, 255, 255);
const K: (u8, u8, u8) = (0, 0, 0);

fn rows(c: &Canvas) -> Vec<String> {
    (0..c.height)
        .map(|y| {
            (0..c.width)
                .map(|x| if c.get_pixel(x, y) == K { '#' } else { '.' })
                .collect()
        })
        .collect()
}

#[test]
fn new_canvas_is_one_colour() {
    let c = Canvas::new(3, 2, W);
    assert_eq!(c.pixels.len(), 6);
    assert!(c.pixels.iter().all(|&p| p == W));
}

#[test]
fn put_pixel_sets_one_pixel() {
    let mut c = Canvas::new(3, 2, W);
    c.put_pixel(2, 1, K);
    assert_eq!(c.pixels[5], K);
    assert_eq!(rows(&c), vec!["...", "..#"]);
}

#[test]
fn rectangles_are_clipped() {
    let mut c = Canvas::new(4, 3, W);
    draw_rect(&mut c, 2, 1, 10, 10, K);
    assert_eq!(rows(&c), vec!["....", "..##", "..##"]);
    let mut d = Canvas::new(4, 3, W);
    draw_rect(&mut d, 3, 0, 1, 2, K);
    assert_eq!(rows(&d), vec!["....", "....", "...."]);
}

#[test]
fn lines_have_thickness() {
    let mut c = Canvas::new(5, 4, W);
    draw_line_h(&mut c, 1, 4, 1, 2, K);
    assert_eq!(rows(&c), vec![".....", ".###.", ".###.", "....."]);
    let mut d = Canvas::new(4, 3, W);
    draw_line_v(&mut d, 3, 0, 3, 2, K);
    assert_eq!(rows(&d), vec!["...#", "...#", "...#"]);
}

#[test]
fn outline_leaves_the_inside() {
    let mut c = Canvas::new(5, 5, W);
    draw_rect_outline(&mut c, 0, 0, 5, 5, 1, K);
    assert_eq!(rows(&c), vec!["#####", "#...#", "#...#", "#...#", "#####"]);
}

#[test]
fn dashes_alternate() {
    let mut c = Canvas::new(1, 9, W);
    draw_dashed_line_v(&mut c, 0, 0, 9, K, 2, 3, 1);
    let column: String = rows(&c).concat();
    assert_eq!(column, "##...##..");
    let mut d = Canvas::new(1, 4, W);
    draw_dashed_line_v(&mut d, 0, 1, 4, K, 1, 1, 1);
    assert_eq!(rows(&d).concat(), ".#.#");
}
