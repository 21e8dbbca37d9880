use shenzhen_solitaire::common::inner_common::{PALETTE, SCREEN_HEIGHT, SCREEN_LENGTH, SCREEN_WIDTH};
use shenzhen_solitaire::common::rendering::{draw_winning_screen, Framebuffer};

fn black_screen() -> Framebuffer {
    let mut fb = Framebuffer::new();
    fb.clearTo(0xFF000000);
    fb
}

fn changed(before: &Framebuffer, after: &Framebuffer) -> Vec<(usize, u32)> {
    (0..after.buffer.len())
        .filter(|&i| before.buffer[i] != after.buffer[i])
        .map(|i| (i, after.buffer[i]))
        .collect()
}


const CRISP_R3: [(usize, u32); 16] = [(4371, 0x00000007), (4372, 0x00000007), (4373, 0x00000007), (4626, 0x00000007), (4630, 0x00000007), (4881, 0x00000007), (4887, 0x00000007), (5137, 0x00000007), (5143, 0x00000007), (5393, 0x00000007), (5399, 0x00000007), (5650, 0x00000007), (5654, 0x00000007), (5907, 0x00000007), (5908, 0x00000007), (5909, 0x00000007)];
const CIRCLE_R3: [(usize, u32); 24] = [(4370, 0xFF333333), (4371, 0xFFCCCCCC), (4372, 0xFFFFFFFF), (4373, 0xFFCCCCCC), (4374, 0xFF333333), (4625, 0xFF333333), (4626, 0xFFCCCCCC), (4630, 0xFFCCCCCC), (4631, 0xFF333333), (4881, 0xFFCCCCCC), (4887, 0xFFCCCCCC), (5137, 0xFFFFFFFF), (5143, 0xFFFFFFFF), (5393, 0xFFCCCCCC), (5399, 0xFFCCCCCC), (5649, 0xFF333333), (5650, 0xFFCCCCCC), (5654, 0xFFCCCCCC), (5655, 0xFF333333), (5906, 0xFF333333), (5907, 0xFFCCCCCC), (5908, 0xFFFFFFFF), (5909, 0xFFCCCCCC), (5910, 0xFF333333)];
const DISC_R3: [(usize, u32); 45] = [(4370, 0xFF333333), (4371, 0xFFCCCCCC), (4372, 0xFFFFFFFF), (4373, 0xFFCCCCCC), (4374, 0xFF333333), (4625, 0xFF333333), (4626, 0xFFCCCCCC), (4627, 0xFFFFFFFF), (4628, 0xFFFFFFFF), (4629, 0xFFFFFFFF), (4630, 0xFFCCCCCC), (4631, 0xFF333333), (4881, 0xFFCCCCCC), (4882, 0xFFFFFFFF), (4883, 0xFFFFFFFF), (4884, 0xFFFFFFFF), (4885, 0xFFFFFFFF), (4886, 0xFFFFFFFF), (4887, 0xFFCCCCCC), (5137, 0xFFFFFFFF), (5138, 0xFFFFFFFF), (5139, 0xFFFFFFFF), (5140, 0xFFFFFFFF), (5141, 0xFFFFFFFF), (5142, 0xFFFFFFFF), (5143, 0xFFFFFFFF), (5393, 0xFFCCCCCC), (5394, 0xFFFFFFFF), (5395, 0xFFFFFFFF), (5396, 0xFFFFFFFF), (5397, 0xFFFFFFFF), (5398, 0xFFFFFFFF), (5399, 0xFFCCCCCC), (5649, 0xFF333333), (5650, 0xFFCCCCCC), (5651, 0xFFFFFFFF), (5652, 0xFFFFFFFF), (5653, 0xFFFFFFFF), (5654, 0xFFCCCCCC), (5655, 0xFF333333), (5906, 0xFF333333), (5907, 0xFFCCCCCC), (5908, 0xFFFFFFFF), (5909, 0xFFCCCCCC), (5910, 0xFF333333)];
const CIRCLE_R7: [(usize, u32); 72] = [(5925, 0xFF0F1F2F), (5926, 0xFF23466A), (5927, 0xFF2F5E8D), (5928, 0xFF336699), (5929, 0xFF2F5E8D), (5930, 0xFF23466A), (5931, 0xFF0F1F2F), (6179, 0xFF04080C), (6180, 0xFF274E76), (6181, 0xFF23466A), (6182, 0xFF0F1F2F), (6186, 0xFF081018), (6187, 0xFF1B3753), (6188, 0xFF274E76), (6189, 0xFF04080C), (6434, 0xFF04080C), (6435, 0xFF2F5E8D), (6436, 0xFF0B1723), (6444, 0xFF0B1723), (6445, 0xFF2F5E8D), (6446, 0xFF04080C), (6690, 0xFF274E76), (6691, 0xFF0B1723), (6701, 0xFF0B1723), (6702, 0xFF274E76), (6945, 0xFF0F1F2F), (6946, 0xFF1B3753), (6958, 0xFF23466A), (6959, 0xFF0F1F2F), (7201, 0xFF23466A), (7202, 0xFF081018), (7214, 0xFF0F1F2F), (7215, 0xFF23466A), (7457, 0xFF2F5E8D), (7471, 0xFF2F5E8D), (7713, 0xFF336699), (7727, 0xFF336699), (7969, 0xFF2F5E8D), (7983, 0xFF2F5E8D), (8225, 0xFF23466A), (8226, 0xFF0F1F2F), (8238, 0xFF081018), (8239, 0xFF23466A), (8481, 0xFF0F1F2F), (8482, 0xFF23466A), (8494, 0xFF1B3753), (8495, 0xFF0F1F2F), (8738, 0xFF274E76), (8739, 0xFF0B1723), (8749, 0xFF0B1723), (8750, 0xFF274E76), (8994, 0xFF04080C), (8995, 0xFF2F5E8D), (8996, 0xFF0B1723), (9004, 0xFF0B1723), (9005, 0xFF2F5E8D), (9006, 0xFF04080C), (9251, 0xFF04080C), (9252, 0xFF274E76), (9253, 0xFF1B3753), (9254, 0xFF081018), (9258, 0xFF0F1F2F), (9259, 0xFF23466A), (9260, 0xFF274E76), (9261, 0xFF04080C), (9509, 0xFF0F1F2F), (9510, 0xFF23466A), (9511, 0xFF2F5E8D), (9512, 0xFF336699), (9513, 0xFF2F5E8D), (9514, 0xFF23466A), (9515, 0xFF0F1F2F)];

#[test]
fn xy_to_i_is_row_major() {
    assert_eq!(Framebuffer::xy_to_i(0, 0), 0);
    assert_eq!(Framebuffer::xy_to_i(3, 2), 2 * 256 + 3);
    assert_eq!(Framebuffer::xy_to_i(300, 1), 556);
}

#[test]
fn xy_to_i_saturates() {
    assert_eq!(Framebuffer::xy_to_i(5, usize::MAX), usize::MAX);
    assert_eq!(Framebuffer::xy_to_i(usize::MAX, 1), usize::MAX);
    assert_eq!(Framebuffer::xy_to_i(usize::MAX - 10, 0), usize::MAX - 10);
}

#[test]
fn new_framebuffer_is_palette_zero() {
    let fb = Framebuffer::new();
    assert_eq!(fb.buffer.len(), SCREEN_LENGTH);
    assert_eq!(SCREEN_LENGTH, SCREEN_WIDTH * SCREEN_HEIGHT);
    assert!(fb.buffer.iter().all(|&p| p == PALETTE[0]));
    assert!(Framebuffer::default() == fb);
}

#[test]
fn clear_and_clear_to() {
    let mut fb = Framebuffer::new();
    fb.clearTo(0x12345678);
    assert!(fb.buffer.iter().all(|&p| p == 0x12345678));
    fb.clear();
    assert!(fb.buffer.iter().all(|&p| p == 0));
    assert_eq!(fb.buffer.len(), SCREEN_LENGTH);
}

#[test]
fn framebuffer_equality_compares_pixels() {
    let a = Framebuffer { buffer: vec![1, 2, 3] };
    let b = Framebuffer { buffer: vec![1, 2, 3] };
    let c = Framebuffer { buffer: vec![1, 2, 4] };
    let d = Framebuffer { buffer: vec![1, 2] };
    assert!(a == b);
    assert!(a != c);
    assert!(a != d);
}

#[test]
fn blend_half_white_over_black() {
    let mut fb = Framebuffer { buffer: vec![0xFF000000] };
    fb.blend(0, 0x80FFFFFF);
    // ((128 + 1) * 255 + (256 - 128) * 0) >> 8 == 128 in each channel
    assert_eq!(fb.buffer[0], 0xFF808080);
}

#[test]
fn blend_mixes_each_channel() {
    let mut fb = Framebuffer { buffer: vec![0x00102030] };
    fb.blend(0, 0x40FF8000);
    // a = 0x40: red (65 * 0 + 192 * 0x30) >> 8, green (65 * 0x80 + 192 * 0x20) >> 8,
    // blue (65 * 0xFF + 192 * 0x10) >> 8
    let r = (192 * 0x30) >> 8;
    let g = (65 * 0x80 + 192 * 0x20) >> 8;
    let b = (65 * 0xFF + 192 * 0x10) >> 8;
    assert_eq!(fb.buffer[0], 0xFF000000 | b << 16 | g << 8 | r);
}

#[test]
fn blend_opaque_replaces() {
    let mut fb = Framebuffer { buffer: vec![0xFF123456, 0x00ABCDEF] };
    fb.blend(0, 0xFF654321);
    fb.blend(1, 0xFF000000);
    assert_eq!(fb.buffer, vec![0xFF654321, 0xFF000000]);
}

#[test]
fn blend_transparent_keeps_background() {
    let mut fb = Framebuffer { buffer: vec![0x00ABCDEF] };
    fb.blend(0, 0x00FFFFFF);
    assert_eq!(fb.buffer[0], 0xFFABCDEF);
}

#[test]
fn blend_xy_blends_that_pixel() {
    let mut fb = black_screen();
    let before = black_screen();
    fb.blend_xy(4, 3, 0xFFFFFFFF);
    assert_eq!(changed(&before, &fb), vec![(3 * 256 + 4, 0xFFFFFFFF)]);
}

#[test]
fn filled_rect_paints_block() {
    let mut fb = black_screen();
    let before = black_screen();
    fb.draw_filled_rect(1, 1, 2, 2, 7);
    assert_eq!(changed(&before, &fb), vec![(257, 7), (258, 7), (513, 7), (514, 7)]);
}

#[test]
fn filled_rect_wraps_past_right_edge_and_clips_at_end() {
    let mut fb = black_screen();
    let before = black_screen();
    fb.draw_filled_rect(255, 0, 2, 1, 9);
    // (256, 0) is index 256, the first pixel of the next row
    assert_eq!(changed(&before, &fb), vec![(255, 9), (256, 9)]);

    let mut fb = black_screen();
    fb.draw_filled_rect(0, 239, 1, 3, 9);
    assert_eq!(changed(&before, &fb), vec![(239 * 256, 9)]);
}

#[test]
fn empty_filled_rect_paints_nothing() {
    let mut fb = black_screen();
    fb.draw_filled_rect(10, 10, 0, 5, 9);
    fb.draw_filled_rect(10, 10, 5, 0, 9);
    assert!(fb == black_screen());
}

#[test]
fn rect_paints_outline_only() {
    let mut fb = black_screen();
    let before = black_screen();
    fb.draw_rect(1, 1, 3, 3, 5);
    let expected: Vec<(usize, u32)> = vec![
        (257, 5), (258, 5), (259, 5),
        (513, 5), (515, 5),
        (769, 5), (770, 5), (771, 5),
    ];
    assert_eq!(changed(&before, &fb), expected);
}

#[test]
fn rect_of_width_zero_paints_column_left_of_it() {
    let mut fb = black_screen();
    let before = black_screen();
    fb.draw_rect(5, 0, 0, 2, 5);
    assert_eq!(changed(&before, &fb), vec![(4, 5), (5, 5), (260, 5), (261, 5)]);
}

#[test]
fn fill_covers_outline() {
    let mut a = black_screen();
    a.draw_rect(3, 4, 5, 6, 0x11);
    a.draw_filled_rect(3, 4, 5, 6, 0x22);
    let mut b = black_screen();
    b.draw_filled_rect(3, 4, 5, 6, 0x22);
    assert!(a == b);
}

#[test]
fn crisp_circle_radius_zero_is_centre() {
    let mut fb = black_screen();
    let before = black_screen();
    fb.draw_crisp_circle(10, 10, 0, 7);
    assert_eq!(changed(&before, &fb), vec![(10 * 256 + 10, 7)]);
}

#[test]
fn crisp_circle_radius_one() {
    let mut fb = black_screen();
    let before = black_screen();
    fb.draw_crisp_circle(10, 10, 1, 7);
    assert_eq!(changed(&before, &fb), vec![(2314, 7), (2569, 7), (2571, 7), (2826, 7)]);
}

#[test]
fn crisp_circle_radius_three() {
    let mut fb = black_screen();
    let before = black_screen();
    fb.draw_crisp_circle(20, 20, 3, 7);
    assert_eq!(changed(&before, &fb), CRISP_R3.to_vec());
}

#[test]
fn circles_past_top_or_left_edge_draw_nothing() {
    let mut fb = black_screen();
    fb.draw_crisp_circle(2, 50, 3, 7);
    fb.draw_circle(50, 2, 3, 7);
    fb.draw_filled_circle(1, 1, 3, 7);
    assert!(fb == black_screen());
}

#[test]
fn circle_radius_three() {
    let mut fb = black_screen();
    let before = black_screen();
    fb.draw_circle(20, 20, 3, 0xFFFFFFFF);
    assert_eq!(changed(&before, &fb), CIRCLE_R3.to_vec());
}

#[test]
fn circle_radius_seven_half_alpha() {
    let mut fb = black_screen();
    let before = black_screen();
    fb.draw_circle(40, 30, 7, 0x80336699);
    assert_eq!(changed(&before, &fb), CIRCLE_R7.to_vec());
}

#[test]
fn filled_circle_radius_three() {
    let mut fb = black_screen();
    let before = black_screen();
    fb.draw_filled_circle(20, 20, 3, 0xFFFFFFFF);
    assert_eq!(changed(&before, &fb), DISC_R3.to_vec());
}

#[test]
fn circle_stays_within_its_square() {
    let mut fb = black_screen();
    let before = black_screen();
    fb.draw_filled_circle(100, 100, 20, 0xFFFFFFFF);
    fb.draw_circle(100, 100, 20, 0xFF00FF00);
    for (i, _) in changed(&before, &fb) {
        let (x, y) = (i % 256, i / 256);
        assert!(79 <= x && x <= 121 && 79 <= y && y <= 121);
    }
}

#[test]
fn winning_screen_layers() {
    let mut fb = black_screen();
    draw_winning_screen(&mut fb);
    assert_eq!(fb.buffer[0], PALETTE[8]);
    assert_eq!(fb.buffer[255], PALETTE[8]);
    assert_eq!(fb.buffer[239 * 256], PALETTE[8]);
    assert_eq!(fb.buffer[1 * 256 + 1], PALETTE[9]);
    assert_eq!(fb.buffer[1 * 256 + 254], PALETTE[9]);
    assert_eq!(fb.buffer[10 * 256 + 100], PALETTE[(8 + 10) % 16]);
    assert_eq!(fb.buffer[79 * 256 + 79], PALETTE[(8 + 79) % 16]);
    // the middle, inside the 80 layers, is left as it was
    assert_eq!(fb.buffer[120 * 256 + 128], 0xFF000000);
    assert_eq!(fb.buffer[80 * 256 + 80], 0xFF000000);
}

#[test]
fn crisp_circle_pixels_lie_near_the_circle() {
    for r in 1..30i64 {
        let mut fb = black_screen();
        let before = black_screen();
        fb.draw_crisp_circle(100, 100, r as usize, 0xFFFFFFFF);
        let pixels = changed(&before, &fb);
        assert!(!pixels.is_empty());
        for (i, _) in pixels {
            let (dx, dy) = ((i % 256) as i64 - 100, (i / 256) as i64 - 100);
            let d = dx * dx + dy * dy;
            assert!(r * r - 2 * r - 1 <= d && d <= r * r + 2 * r + 1);
        }
    }
}

#[test]
fn off_edge_circles_of_any_radius_draw_nothing() {
    let mut fb = black_screen();
    fb.draw_circle(0, 0, usize::MAX, 7);
    fb.draw_filled_circle(5, 0, usize::MAX, 7);
    fb.draw_crisp_circle(0, 5, usize::MAX, 7);
    assert!(fb == black_screen());
}

fn channel(c: u32, k: u32) -> u32 {
    (c >> (8 * k)) & 0xFF
}

#[test]
fn circle_channels_lie_between_background_and_colour() {
    let mut fb = Framebuffer::new();
    for i in 0..fb.buffer.len() {
        fb.buffer[i] = (i as u32).wrapping_mul(0x9E3779B9);
    }
    let before = Framebuffer { buffer: fb.buffer.clone() };
    let colour = 0x7F20C060;
    fb.draw_circle(60, 60, 12, colour);
    let touched = changed(&before, &fb);
    assert!(!touched.is_empty());
    for i in 0..fb.buffer.len() {
        for k in 0..3 {
            let (v, a, b) = (channel(fb.buffer[i], k), channel(before.buffer[i], k), channel(colour, k));
            assert!((a <= v && v <= b) || (b <= v && v <= a));
        }
    }
    for (_, p) in touched {
        assert_eq!(channel(p, 3), 255);
    }
}

#[test]
fn crisp_circle_axes_centre_and_quarter_turns() {
    for r in 1..20usize {
        let mut fb = black_screen();
        fb.draw_crisp_circle(50, 60, r, 0xFFFFFFFF);
        let at = |x: usize, y: usize| fb.buffer[y * 256 + x];
        assert_eq!(at(50 + r, 60), 0xFFFFFFFF);
        assert_eq!(at(50 - r, 60), 0xFFFFFFFF);
        assert_eq!(at(50, 60 + r), 0xFFFFFFFF);
        assert_eq!(at(50, 60 - r), 0xFFFFFFFF);
        assert_eq!(at(50, 60), 0xFF000000);
        for y in 0..240usize {
            for x in 0..256usize {
                if at(x, y) == 0xFFFFFFFF {
                    let (dx, dy) = (x as i64 - 50, y as i64 - 60);
                    let (tx, ty) = ((50 - dy) as usize, (60 + dx) as usize);
                    assert_eq!(at(tx, ty), 0xFFFFFFFF);
                }
            }
        }
    }
}
