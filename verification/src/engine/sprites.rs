//! Sprite sheets: 8x8 sprites stored as 64 colour digits each.
use crate::text::{lines, lines_of, strings_view};
use vstd::prelude::*;
use vstd::utf8::encode_utf8;

verus! {

/// One fat pixel to draw: its position on the 128x128 screen and its colour.
pub struct Pixel {
    pub x: u32,
    pub y: u32,
    pub color: u32,
}

/// A loaded sheet of sprites, each 64 bytes: the rows of an 8x8 sprite, one
/// ASCII digit (its colour) per pixel.
pub struct SpriteSheet {
    sprites: Vec<[u8; 64]>,
}

/// Each line of `text` is exactly 64 bytes long in UTF-8.
pub open spec fn sprite_lines_fit(text: Seq<char>) -> bool {
    forall|i: int| 0 <= i < lines(text).len() ==> #[trigger] encode_utf8(lines(text)[i]).len() == 64
}

/// The pixel drawn `k`-th for a sprite at (`x`, `y`): columns outer, rows inner.
pub open spec fn sprite_pixel(sprite: Seq<u8>, x: u32, y: u32, k: int) -> Pixel {
    let i = k / 8;
    let j = k % 8;
    Pixel { x: (x + i) as u32, y: (y + j) as u32, color: (sprite[i + 8 * j] - 48) as u32 }
}

/// Every byte of the sprite is at least the digit `0`.
pub open spec fn drawable(sprite: Seq<u8>) -> bool {
    forall|k: int| 0 <= k < sprite.len() ==> #[trigger] sprite[k] >= 48
}

/// The `k`-th pixel drawn is in column `k / 8` and row `k % 8` of the sprite,
/// and its colour is the value of that pixel's digit: the byte minus the
/// digit `0`.
pub proof fn sprite_pixel_is_its_digit(sprite: Seq<u8>, x: u32, y: u32, k: int)
    requires
        sprite.len() == 64,
        drawable(sprite),
        0 <= k < 64,
        x <= u32::MAX - 7,
        y <= u32::MAX - 7,
    ensures
        sprite_pixel(sprite, x, y, k).color + 48 == sprite[k / 8 + 8 * (k % 8)],
        sprite_pixel(sprite, x, y, k).x == x + k / 8,
        sprite_pixel(sprite, x, y, k).y == y + k % 8,
{
    assert(0 <= k / 8 < 8 && 0 <= k % 8 < 8) by (nonlinear_arith)
        requires 0 <= k < 64;
    assert(0 <= k / 8 + 8 * (k % 8) < 64) by (nonlinear_arith)
        requires 0 <= k / 8 < 8, 0 <= k % 8 < 8;
    assert(sprite[k / 8 + 8 * (k % 8)] >= 48);
}

impl View for SpriteSheet {
    type V = Seq<Seq<u8>>;

    /// The sprites, each as its 64 bytes.
    closed spec fn view(&self) -> Seq<Seq<u8>> {
        self.sprites@.map_values(|s: [u8; 64]| s@)
    }
}

impl SpriteSheet {
    /// Every sprite of a sheet is 64 bytes long.
    pub proof fn lemma_sprites_are_64_bytes(&self)
        ensures
            forall|k: int| 0 <= k < self@.len() ==> (#[trigger] self@[k]).len() == 64,
    {
        assert forall|k: int| 0 <= k < self@.len() implies (#[trigger] self@[k]).len() == 64 by {
            assert(self@[k] == self.sprites@[k]@);
        }
    }

    /// Reads a sheet with one sprite per line of `text`.
    pub fn from_text(text: &str) -> (sheet: SpriteSheet)
        requires
            sprite_lines_fit(text@),
        ensures
            sheet@ == lines(text@).map_values(|l: Seq<char>| encode_utf8(l)),
    {
        let ls = lines_of(text);
        let mut sprites: Vec<[u8; 64]> = Vec::new();
        let n = ls.len();
        for i in 0..n
            invariant
                n == ls.len(),
                strings_view(ls@) == lines(text@),
                sprite_lines_fit(text@),
                sprites@.len() == i,
                forall|k: int| 0 <= k < i ==> #[trigger] sprites@[k]@ == encode_utf8(lines(text@)[k]),
        {
            let bytes = ls[i].as_str().as_bytes();
            assert(strings_view(ls@)[i as int] == ls@[i as int]@);
            assert(bytes@.len() == 64);
            let mut data: [u8; 64] = [0u8; 64];
            for j in 0..64
                invariant
                    bytes@.len() == 64,
                    forall|m: int| 0 <= m < j ==> #[trigger] data@[m] == bytes@[m],
            {
                data[j] = bytes[j];
            }
            assert(data@ =~= bytes@);
            sprites.push(data);
        }
        let sheet = SpriteSheet { sprites };
        assert(sheet@ =~= lines(text@).map_values(|l: Seq<char>| encode_utf8(l)));
        sheet
    }

    /// The number of sprites.
    pub fn len(&self) -> (n: usize)
        ensures
            n == self@.len(),
            forall|k: int| 0 <= k < n ==> (#[trigger] self@[k]).len() == 64,
    {
        proof {
            self.lemma_sprites_are_64_bytes();
        }
        self.sprites.len()
    }

    /// The bytes of sprite `index`.
    pub fn sprite(&self, index: usize) -> (s: [u8; 64])
        requires
            index < self@.len(),
        ensures
            s@ == self@[index as int],
    {
        self.sprites[index]
    }

    /// The 64 fat pixels that draw sprite `index` with its top left corner at
    /// (`x`, `y`), in drawing order: for each column left to right, the pixels
    /// top to bottom; each pixel's colour is its digit's value.
    pub fn pixels(&self, index: usize, x: u32, y: u32) -> (r: Vec<Pixel>)
        requires
            index < self@.len(),
            drawable(self@[index as int]),
            x <= u32::MAX - 7,
            y <= u32::MAX - 7,
        ensures
            r@.len() == 64,
            self@[index as int].len() == 64,
            forall|k: int| 0 <= k < 64 ==> #[trigger] r@[k] == sprite_pixel(self@[index as int], x, y, k),
            forall|k: int|
                0 <= k < 64 ==> {
                    &&& (#[trigger] r@[k]).color + 48 == self@[index as int][k / 8 + 8 * (k % 8)]
                    &&& r@[k].x == x + k / 8
                    &&& r@[k].y == y + k % 8
                },
    {
        proof {
            self.lemma_sprites_are_64_bytes();
        }
        let data = self.sprites[index];
        let ghost s = self@[index as int];
        assert(data@ == s);
        let mut r: Vec<Pixel> = Vec::new();
        for i in 0..8u32
            invariant
                data@ == s,
                s.len() == 64,
                drawable(s),
                x <= u32::MAX - 7,
                y <= u32::MAX - 7,
                r@.len() == 8 * i,
                forall|k: int| 0 <= k < 8 * i ==> #[trigger] r@[k] == sprite_pixel(s, x, y, k),
        {
            for j in 0..8u32
                invariant
                    data@ == s,
                    s.len() == 64,
                    drawable(s),
                    i < 8,
                    x <= u32::MAX - 7,
                    y <= u32::MAX - 7,
                    r@.len() == 8 * i + j,
                    forall|k: int| 0 <= k < 8 * i + j ==> #[trigger] r@[k] == sprite_pixel(s, x, y, k),
            {
                let idx = (i + 8 * j) as usize;
                assert(s[idx as int] >= 48);
                let color = (data[idx] - 48) as u32;
                r.push(Pixel { x: i + x, y: j + y, color });
                proof {
                    let k = 8 * i + j;
                    assert(k / 8 == i as int && k % 8 == j as int) by (nonlinear_arith)
                        requires k == 8 * i + j, 0 <= j < 8, 0 <= i;
                }
            }
        }
        proof {
            assert forall|k: int| 0 <= k < 64 implies {
                &&& (#[trigger] r@[k]).color + 48 == s[k / 8 + 8 * (k % 8)]
                &&& r@[k].x == x + k / 8
                &&& r@[k].y == y + k % 8
            } by {
                sprite_pixel_is_its_digit(s, x, y, k);
            }
        }
        r
    }
}

} // verus!
