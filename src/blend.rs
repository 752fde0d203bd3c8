//! Laying a rendered overlay onto the background map, pixel by pixel.
//!
//! Both images are RGBA with 8 bits per channel, rows one after another.
//! The overlay is premultiplied by its alpha, so "source over" is
//! `out = src + dst * (255 - src_alpha) / 255` in every channel, capped at 255.
use vstd::prelude::*;

verus! {

/// Position of channel `c` of pixel (`x`, `y`) in an image `w` pixels wide.
pub open spec fn idx(w: int, x: int, y: int, c: int) -> int {
    (y * w + x) * 4 + c
}

/// One channel of the premultiplied source `s`, of alpha `sa`, over `d`.
pub open spec fn over(s: int, d: int, sa: int) -> int {
    let v = s + d * (255 - sa) / 255;
    if v > 255 {
        255
    } else {
        v
    }
}

/// Channel `c` of pixel (`x`, `y`) once the overlay `ov` (`ow` by `oh`
/// pixels) has been laid over the background `bg` (`bw` pixels wide) from
/// their top-left corners: unchanged where the overlay does not reach or is
/// fully transparent.
pub open spec fn composited(bg: Seq<u8>, bw: int, ov: Seq<u8>, ow: int, oh: int, x: int, y: int, c: int) -> u8 {
    if x < ow && y < oh && ov[idx(ow, x, y, 3)] != 0 {
        over(ov[idx(ow, x, y, c)] as int, bg[idx(bw, x, y, c)] as int, ov[idx(ow, x, y, 3)] as int) as u8
    } else {
        bg[idx(bw, x, y, c)]
    }
}

proof fn lemma_idx_bound(w: int, h: int, x: int, y: int, c: int)
    requires
        0 <= x < w,
        0 <= y < h,
        0 <= c < 4,
    ensures
        0 <= y * w <= y * w + x,
        0 <= idx(w, x, y, c) < w * h * 4,
{
    assert(0 <= y * w) by (nonlinear_arith)
        requires
            0 <= y,
            0 < w,
    ;
    assert(y * w + x < w * h) by (nonlinear_arith)
        requires
            0 <= x < w,
            0 <= y < h,
    ;
}

proof fn lemma_idx_injective(w: int, x1: int, y1: int, c1: int, x2: int, y2: int, c2: int)
    requires
        0 <= x1 < w,
        0 <= x2 < w,
        0 <= y1,
        0 <= y2,
        0 <= c1 < 4,
        0 <= c2 < 4,
        idx(w, x1, y1, c1) == idx(w, x2, y2, c2),
    ensures
        x1 == x2 && y1 == y2 && c1 == c2,
{
    let i = idx(w, x1, y1, c1);
    vstd::arithmetic::div_mod::lemma_fundamental_div_mod_converse(i, 4, y1 * w + x1, c1);
    vstd::arithmetic::div_mod::lemma_fundamental_div_mod_converse(i, 4, y2 * w + x2, c2);
    let q = y1 * w + x1;
    vstd::arithmetic::div_mod::lemma_fundamental_div_mod_converse(q, w, y1, x1);
    vstd::arithmetic::div_mod::lemma_fundamental_div_mod_converse(q, w, y2, x2);
}

/// One channel of the premultiplied source `s`, of alpha `sa`, over `d`.
fn over_channel(s: u8, d: u8, sa: u8) -> (r: u8)
    ensures
        r as int == over(s as int, d as int, sa as int),
{
    assert((d as int) * (255 - sa as int) <= 255 * 255) by (nonlinear_arith)
        requires
            0 <= d <= 255,
            0 <= sa <= 255,
    ;
    assert(0 <= (d as int) * (255 - sa as int)) by (nonlinear_arith)
        requires
            0 <= d <= 255,
            0 <= sa <= 255,
    ;
    let v: u32 = s as u32 + d as u32 * (255 - sa as u32) / 255;
    if v > 255 {
        255
    } else {
        v as u8
    }
}

/// Lays the premultiplied overlay `overlay` (`ow` by `oh` pixels) over the
/// background `background` (`bw` by `bh` pixels), both anchored at their
/// top-left corner.
pub fn composite_over(background: &mut Vec<u8>, bw: u32, bh: u32, overlay: &Vec<u8>, ow: u32, oh: u32)
    requires
        old(background)@.len() == bw * bh * 4,
        overlay@.len() == ow * oh * 4,
    ensures
        final(background)@.len() == old(background)@.len(),
        forall|x: int, y: int, c: int|
            0 <= x < bw && 0 <= y < bh && 0 <= c < 4 ==> #[trigger] final(background)@[idx(bw as int, x, y, c)]
                == composited(old(background)@, bw as int, overlay@, ow as int, oh as int, x, y, c),
{
    let ghost bg0 = background@;
    let olen = overlay.len();
    let blen = background.len();
    let w: u32 = if bw < ow { bw } else { ow };
    let h: u32 = if bh < oh { bh } else { oh };
    let mut y: u32 = 0;
    while y < h
        invariant
            bg0.len() == bw * bh * 4,
            background@.len() == bg0.len(),
            overlay@.len() == ow * oh * 4,
            olen == overlay@.len(),
            blen == bg0.len(),
            w <= bw && w <= ow && (w == bw || w == ow),
            h <= bh && h <= oh && (h == bh || h == oh),
            y <= h,
            forall|x: int, yy: int, c: int|
                0 <= x < bw && 0 <= yy < bh && 0 <= c < 4 ==> #[trigger] background@[idx(bw as int, x, yy, c)]
                    == if yy < y { composited(bg0, bw as int, overlay@, ow as int, oh as int, x, yy, c) } else { bg0[idx(bw as int, x, yy, c)] },
        decreases h - y,
    {
        let mut x: u32 = 0;
        while x < w
            invariant
                bg0.len() == bw * bh * 4,
                background@.len() == bg0.len(),
                overlay@.len() == ow * oh * 4,
                olen == overlay@.len(),
                blen == bg0.len(),
                w <= bw && w <= ow && (w == bw || w == ow),
                h <= bh && h <= oh && (h == bh || h == oh),
                y < h,
                x <= w,
                forall|xx: int, yy: int, c: int|
                    0 <= xx < bw && 0 <= yy < bh && 0 <= c < 4 ==> #[trigger] background@[idx(bw as int, xx, yy, c)]
                        == if yy < y || (yy == y && xx < x) {
                            composited(bg0, bw as int, overlay@, ow as int, oh as int, xx, yy, c)
                        } else {
                            bg0[idx(bw as int, xx, yy, c)]
                        },
            decreases w - x,
        {
            proof {
                lemma_idx_bound(ow as int, oh as int, x as int, y as int, 3);
                lemma_idx_bound(bw as int, bh as int, x as int, y as int, 3);
            }
            let o: usize = (y as usize * ow as usize + x as usize) * 4;
            let b: usize = (y as usize * bw as usize + x as usize) * 4;
            let sa = overlay[o + 3];
            let ghost before = background@;
            if sa != 0 {
                let v0 = over_channel(overlay[o], background[b], sa);
                background[b] = v0;
                let v1 = over_channel(overlay[o + 1], background[b + 1], sa);
                background[b + 1] = v1;
                let v2 = over_channel(overlay[o + 2], background[b + 2], sa);
                background[b + 2] = v2;
                let v3 = over_channel(overlay[o + 3], background[b + 3], sa);
                background[b + 3] = v3;
            }
            proof {
                assert forall|xx: int, yy: int, c: int|
                    0 <= xx < bw && 0 <= yy < bh && 0 <= c < 4 implies #[trigger] background@[idx(bw as int, xx, yy, c)]
                        == if yy < y || (yy == y && xx < x + 1) {
                            composited(bg0, bw as int, overlay@, ow as int, oh as int, xx, yy, c)
                        } else {
                            bg0[idx(bw as int, xx, yy, c)]
                        } by {
                    let i = idx(bw as int, xx, yy, c);
                    lemma_idx_bound(bw as int, bh as int, xx, yy, c);
                    if xx == x && yy == y {
                        assert(before[i] == bg0[i]);
                        assert(i == b + c);
                        assert(overlay@[idx(ow as int, xx, yy, c)] == overlay@[o + c]);
                    } else {
                        if b <= i < b + 4 {
                            lemma_idx_injective(bw as int, xx, yy, c, x as int, y as int, i - b);
                        }
                        assert(background@[i] == before[i]);
                    }
                }
            }
            x = x + 1;
        }
        proof {
            assert forall|xx: int, yy: int, c: int|
                0 <= xx < bw && 0 <= yy < bh && 0 <= c < 4 implies #[trigger] background@[idx(bw as int, xx, yy, c)]
                    == if yy < y + 1 { composited(bg0, bw as int, overlay@, ow as int, oh as int, xx, yy, c) } else { bg0[idx(bw as int, xx, yy, c)] } by {
                if yy == y && xx >= w {
                    assert(xx >= ow);
                }
            }
        }
        y = y + 1;
    }
    proof {
        assert forall|x: int, yy: int, c: int|
            0 <= x < bw && 0 <= yy < bh && 0 <= c < 4 implies #[trigger] background@[idx(bw as int, x, yy, c)]
                == composited(bg0, bw as int, overlay@, ow as int, oh as int, x, yy, c) by {
            if yy >= h {
                assert(yy >= oh);
            }
        }
    }
}

} // verus!
