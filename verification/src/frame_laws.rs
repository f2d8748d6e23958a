//! What the bytes of a frame say about its pixels.
//!
//! The statements here go by bytes and bits alone: which codebook a codeword
//! belongs to, which byte of the raster it stands for, and what that byte is
//! predicted from.

use vstd::prelude::*;

use crate::bits::window_at;
use crate::decoder::{
    field_decodes_to, field_symbols, frame_decodes_to, stream_books, symbols, Codebooks,
};
use crate::header::{Method, PixelFamily, Predictor, StreamInfo};
use crate::layout::{carries, field_residuals, first_pixel, slot_of, unit, wire_place};
use crate::predict::{
    decorrelated, field, gradient_residuals, median_residuals, yuy2_left_residuals,
};
use crate::tables::{first_match, lookup, shows, HuffEntry};

verus! {

/// The difference of two bytes that stand for numbers modulo 256.
pub proof fn lemma_minus(a: u8, b: u8, x: int, y: int)
    requires
        a == x % 256,
        b == y % 256,
    ensures
        a.wrapping_sub(b) == (x - y) % 256,
{
}

/// A difference to the left and one to the row above, one after the other.
pub proof fn lemma_minus_twice(a: u8, b: u8, c: u8, d: u8, x: int, y: int, z: int, w: int)
    requires
        a == x % 256,
        b == y % 256,
        c == z % 256,
        d == w % 256,
    ensures
        a.wrapping_sub(b).wrapping_sub(c.wrapping_sub(d)) == (x - y - z + w) % 256,
        a.wrapping_sub(b).wrapping_sub(c) == (x - y - z) % 256,
{
    lemma_minus(a, b, x, y);
    lemma_minus(c, d, z, w);
    lemma_minus(a.wrapping_sub(b), c.wrapping_sub(d), x - y, z - w);
    lemma_minus(a.wrapping_sub(b), c, x - y, z);
}

/// The median of left, above and their gradient is the gradient, held between the
/// other two.
pub proof fn lemma_median(l: u8, a: u8, al: u8)
    ensures
        ({
            let g = (l + a - al) % 256;
            let (low, high) = if l <= a {
                (l as int, a as int)
            } else {
                (a as int, l as int)
            };
            crate::predict::median(l, a, al) == (if g < low {
                low
            } else if g > high {
                high
            } else {
                g
            })
        }),
{
    let g = crate::predict::gradient(l, a, al);
    assert(l.wrapping_add(a) == (l + a) % 256);
    lemma_minus(l.wrapping_add(a), al, l + a, al as int);
    assert(g == (l + a - al) % 256);
}

/// What a YUY2 field carries are its residuals in raster order.
proof fn lemma_yuy2_body(
    predictor: Predictor,
    decorrelate: bool,
    row_bytes: int,
    height: int,
    p: Seq<u8>,
    seed: Seq<u8>,
    body: Seq<u8>,
)
    requires
        row_bytes >= 4,
        carries(
            PixelFamily::Yuy2,
            predictor,
            decorrelate,
            row_bytes,
            height,
            p,
            seed,
            body,
        ),
    ensures
        p.len() == row_bytes * height,
        body.len() == p.len() - 4,
        forall|i: int| 0 <= i < 4 ==> #[trigger] seed[i] == p[i],
        forall|j: int|
            0 <= j < body.len() ==> #[trigger] body[j] == field_residuals(
                PixelFamily::Yuy2,
                predictor,
                decorrelate,
                row_bytes,
                height,
                p,
            )[j + 4],
{
    let r = field_residuals(PixelFamily::Yuy2, predictor, decorrelate, row_bytes, height, p);
    assert forall|i: int| 0 <= i < 4 implies #[trigger] seed[i] == p[i] by {
        assert(r[i] == first_pixel(PixelFamily::Yuy2, seed)[i]);
    }
    assert forall|j: int| 0 <= j < body.len() implies #[trigger] body[j] == r[j + 4] by {
        assert(body[j] == r[4 + wire_place(PixelFamily::Yuy2, decorrelate, j)]);
        assert(wire_place(PixelFamily::Yuy2, decorrelate, j) == j) by {
            reveal(wire_place);
        }
    }
}

/// A YUY2 field starts with its first macropixel as it is. With left prediction
/// every further byte is coded as its difference, modulo 256, to the last luma
/// byte, two bytes before, or to the last byte of the same chroma component, four
/// bytes before.
pub proof fn law_yuy2_left_bytes(
    decorrelate: bool,
    row_bytes: int,
    height: int,
    p: Seq<u8>,
    seed: Seq<u8>,
    body: Seq<u8>,
)
    requires
        row_bytes >= 4,
        carries(
            PixelFamily::Yuy2,
            Predictor::Left,
            decorrelate,
            row_bytes,
            height,
            p,
            seed,
            body,
        ),
    ensures
        p.len() == row_bytes * height,
        body.len() == p.len() - 4,
        forall|i: int| 0 <= i < 4 ==> #[trigger] seed[i] == p[i],
        forall|j: int|
            0 <= j < body.len() ==> {
                let i = j + 4;
                let d = if i % 2 == 0 {
                    2int
                } else {
                    4
                };
                #[trigger] body[j] == (p[i] - p[i - d]) % 256
            },
{
    lemma_yuy2_body(Predictor::Left, decorrelate, row_bytes, height, p, seed, body);
    assert forall|j: int| 0 <= j < body.len() implies {
        let i = j + 4;
        let d = if i % 2 == 0 {
            2int
        } else {
            4
        };
        #[trigger] body[j] == (p[i] - p[i - d]) % 256
    } by {
        lemma_minus(p[j + 4], p[j + 4 - crate::predict::yuy2_stride(j + 4)], p[j + 4] as int, p[j + 4 - crate::predict::yuy2_stride(j + 4)] as int);
    }
}

/// With gradient prediction, what is coded of a YUY2 byte from the second row on is
/// its difference to the byte above, predicted by the same difference of the last
/// byte of its component.
pub proof fn law_yuy2_gradient_bytes(
    decorrelate: bool,
    row_bytes: int,
    height: int,
    p: Seq<u8>,
    seed: Seq<u8>,
    body: Seq<u8>,
)
    requires
        row_bytes >= 4,
        carries(
            PixelFamily::Yuy2,
            Predictor::Gradient,
            decorrelate,
            row_bytes,
            height,
            p,
            seed,
            body,
        ),
    ensures
        p.len() == row_bytes * height,
        body.len() == p.len() - 4,
        forall|i: int| 0 <= i < 4 ==> #[trigger] seed[i] == p[i],
        forall|j: int|
            0 <= j < body.len() ==> {
                let i = j + 4;
                let d = if i % 2 == 0 {
                    2int
                } else {
                    4
                };
                #[trigger] body[j] == (if i < row_bytes {
                    p[i] - p[i - d]
                } else if i - d < row_bytes {
                    p[i] - p[i - d] - p[i - row_bytes]
                } else {
                    p[i] - p[i - d] - p[i - row_bytes] + p[i - d - row_bytes]
                }) % 256
            },
{
    lemma_yuy2_body(Predictor::Gradient, decorrelate, row_bytes, height, p, seed, body);
    assert forall|j: int| 0 <= j < body.len() implies {
        let i = j + 4;
        let d = if i % 2 == 0 {
            2int
        } else {
            4
        };
        #[trigger] body[j] == (if i < row_bytes {
            p[i] - p[i - d]
        } else if i - d < row_bytes {
            p[i] - p[i - d] - p[i - row_bytes]
        } else {
            p[i] - p[i - d] - p[i - row_bytes] + p[i - d - row_bytes]
        }) % 256
    } by {
        lemma_yuy2_gradient_at(row_bytes, p, j + 4);
    }
}

/// With median prediction, the YUY2 bytes from eight bytes into the second row on
/// are predicted by the median of the byte two before, the byte above, and their
/// sum less the byte above the first; the bytes before that as with left
/// prediction.
pub proof fn law_yuy2_median_bytes(
    decorrelate: bool,
    row_bytes: int,
    height: int,
    p: Seq<u8>,
    seed: Seq<u8>,
    body: Seq<u8>,
)
    requires
        row_bytes >= 4,
        carries(
            PixelFamily::Yuy2,
            Predictor::Median,
            decorrelate,
            row_bytes,
            height,
            p,
            seed,
            body,
        ),
    ensures
        p.len() == row_bytes * height,
        body.len() == p.len() - 4,
        forall|i: int| 0 <= i < 4 ==> #[trigger] seed[i] == p[i],
        forall|j: int|
            0 <= j < body.len() ==> {
                let i = j + 4;
                let d = if i % 2 == 0 {
                    2int
                } else {
                    4
                };
                let (l, a, al) = (
                    p[i - 2] as int,
                    p[i - row_bytes] as int,
                    p[i - row_bytes - 2] as int,
                );
                let g = (l + a - al) % 256;
                let (low, high) = if l <= a {
                    (l, a)
                } else {
                    (a, l)
                };
                let m = if g < low {
                    low
                } else if g > high {
                    high
                } else {
                    g
                };
                #[trigger] body[j] == (if height < 2 || i < row_bytes + 8 {
                    p[i] - p[i - d]
                } else {
                    p[i] - m
                }) % 256
            },
{
    lemma_yuy2_body(Predictor::Median, decorrelate, row_bytes, height, p, seed, body);
    assert forall|j: int| 0 <= j < body.len() implies {
        let i = j + 4;
        let d = if i % 2 == 0 {
            2int
        } else {
            4
        };
        let (l, a, al) = (
            p[i - 2] as int,
            p[i - row_bytes] as int,
            p[i - row_bytes - 2] as int,
        );
        let g = (l + a - al) % 256;
        let (low, high) = if l <= a {
            (l, a)
        } else {
            (a, l)
        };
        let m = if g < low {
            low
        } else if g > high {
            high
        } else {
            g
        };
        #[trigger] body[j] == (if height < 2 || i < row_bytes + 8 {
            p[i] - p[i - d]
        } else {
            p[i] - m
        }) % 256
    } by {
        lemma_yuy2_median_at(row_bytes, height, p, j + 4);
    }
}

/// The gradient residual of a YUY2 byte.
proof fn lemma_yuy2_gradient_at(row_bytes: int, p: Seq<u8>, i: int)
    requires
        row_bytes >= 4,
        4 <= i < p.len(),
    ensures
        ({
            let d = if i % 2 == 0 {
                2int
            } else {
                4
            };
            yuy2_left_residuals(gradient_residuals(p, row_bytes))[i] == (if i < row_bytes {
                p[i] - p[i - d]
            } else if i - d < row_bytes {
                p[i] - p[i - d] - p[i - row_bytes]
            } else {
                p[i] - p[i - d] - p[i - row_bytes] + p[i - d - row_bytes]
            }) % 256
        }),
{
    let d = if i % 2 == 0 {
        2int
    } else {
        4
    };
    let (x, y) = (p[i], p[i - d]);
    lemma_minus(x, y, x as int, y as int);
    if i >= row_bytes {
        let above = p[i - row_bytes];
        let before = if i - d < row_bytes {
            0u8
        } else {
            p[i - d - row_bytes]
        };
        lemma_minus_twice(
            x,
            above,
            y,
            before,
            x as int,
            above as int,
            y as int,
            before as int,
        );
    }
}

/// The median residual of a YUY2 byte.
proof fn lemma_yuy2_median_at(row_bytes: int, height: int, p: Seq<u8>, i: int)
    requires
        row_bytes >= 4,
        p.len() == row_bytes * height,
        4 <= i < p.len(),
    ensures
        ({
            let d = if i % 2 == 0 {
                2int
            } else {
                4
            };
            let (l, a, al) = (
                p[i - 2] as int,
                p[i - row_bytes] as int,
                p[i - row_bytes - 2] as int,
            );
            let g = (l + a - al) % 256;
            let (low, high) = if l <= a {
                (l, a)
            } else {
                (a, l)
            };
            let m = if g < low {
                low
            } else if g > high {
                high
            } else {
                g
            };
            median_residuals(p, row_bytes, height)[i] == (if height < 2 || i < row_bytes + 8 {
                p[i] - p[i - d]
            } else {
                p[i] - m
            }) % 256
        }),
{
    let d = if i % 2 == 0 {
        2int
    } else {
        4
    };
    let (x, y) = (p[i], p[i - d]);
    lemma_minus(x, y, x as int, y as int);
    if height >= 2 && i >= row_bytes + 8 {
        let (l, a, al) = (p[i - 2], p[i - row_bytes], p[i - row_bytes - 2]);
        let m = crate::predict::median(l, a, al);
        lemma_median(l, a, al);
        lemma_minus(x, m, x as int, m as int);
    }
}

/// What is predicted of an RGB byte: the byte itself, or its difference to the
/// green byte of its pixel where colours are decorrelated and it is blue or red.
spec fn colour(p: Seq<u8>, n: int, decorrelate: bool, i: int) -> int {
    if decorrelate && (i % n == 0 || i % n == 2) {
        p[i] - p[i - i % n + 1]
    } else {
        p[i] as int
    }
}

/// Decorrelated bytes are what is predicted.
proof fn lemma_colour(p: Seq<u8>, n: int, decorrelate: bool, i: int)
    requires
        n == 3 || n == 4,
        p.len() % n as nat == 0,
        0 <= i < p.len(),
    ensures
        (if decorrelate {
            decorrelated(p, n)
        } else {
            p
        })[i] == colour(p, n, decorrelate, i) % 256,
{
    lemma_whole_pixel_fits(n, p.len() as int, i);
    let g = i - i % n + 1;
    lemma_minus(p[i], p[g], p[i] as int, p[g] as int);
}

/// The residual of an RGB byte behind the first pixel.
proof fn lemma_rgb_at(
    family: PixelFamily,
    predictor: Predictor,
    decorrelate: bool,
    row_bytes: int,
    height: int,
    p: Seq<u8>,
    i: int,
)
    requires
        family.rgb(),
        row_bytes > 0,
        row_bytes % unit(family) == 0,
        p.len() % unit(family) as nat == 0,
        unit(family) <= i < p.len(),
    ensures
        ({
            let n = unit(family);
            let v = |k: int| colour(p, n, decorrelate, k);
            field_residuals(family, predictor, decorrelate, row_bytes, height, p)[i] == (
            if predictor is Gradient && i >= row_bytes + n {
                v(i) - v(i - n) - v(i - row_bytes) + v(i - row_bytes - n)
            } else if predictor is Gradient && i >= row_bytes {
                v(i) - v(i - n) - v(i - row_bytes)
            } else {
                v(i) - v(i - n)
            }) % 256
        }),
{
    let n = unit(family);
    let d = if decorrelate {
        decorrelated(p, n)
    } else {
        p
    };
    let v = |k: int| colour(p, n, decorrelate, k);
    lemma_colour(p, n, decorrelate, i);
    lemma_colour(p, n, decorrelate, i - n);
    lemma_minus(d[i], d[i - n], v(i), v(i - n));
    if predictor is Gradient && i >= row_bytes {
        assert(row_bytes >= n);
        lemma_colour(p, n, decorrelate, i - row_bytes);
        if i >= row_bytes + n {
            lemma_colour(p, n, decorrelate, i - row_bytes - n);
            lemma_minus_twice(
                d[i],
                d[i - row_bytes],
                d[i - n],
                d[i - row_bytes - n],
                v(i),
                v(i - row_bytes),
                v(i - n),
                v(i - row_bytes - n),
            );
        } else {
            lemma_minus_twice(
                d[i],
                d[i - row_bytes],
                d[i - n],
                0,
                v(i),
                v(i - row_bytes),
                v(i - n),
                0,
            );
        }
    }
}

/// A raster of whole rows consists of whole pixels.
proof fn lemma_rows_of_pixels(n: int, row_bytes: int, height: int)
    requires
        n > 0,
        row_bytes % n == 0,
    ensures
        (row_bytes * height) % n == 0,
{
    let q = row_bytes / n;
    vstd::arithmetic::div_mod::lemma_fundamental_div_mod(row_bytes, n);
    assert(row_bytes * height == (q * height) * n) by (nonlinear_arith)
        requires
            row_bytes == n * q,
    ;
    vstd::arithmetic::div_mod::lemma_mod_multiples_basic(q * height, n);
}

/// An RGB field starts with its first pixel, behind a byte that does not count
/// for RGB24. Every further byte is coded as a difference modulo 256. Where
/// colours are decorrelated, it is the difference to green that is predicted of
/// blue and red, and green is coded before blue. With left prediction a byte is
/// predicted by the same colour one pixel before; with gradient prediction, from
/// the second row on, by that one and the one above less the one above that one.
pub proof fn law_rgb_bytes(
    family: PixelFamily,
    predictor: Predictor,
    decorrelate: bool,
    row_bytes: int,
    height: int,
    p: Seq<u8>,
    seed: Seq<u8>,
    body: Seq<u8>,
)
    requires
        family.rgb(),
        row_bytes > 0,
        row_bytes % (if family is Rgb24 {
            3
        } else {
            4
        }) == 0,
        carries(family, predictor, decorrelate, row_bytes, height, p, seed, body),
    ensures
        ({
            let n = if family is Rgb24 {
                3int
            } else {
                4
            };
            let v = |i: int|
                if decorrelate && (i % n == 0 || i % n == 2) {
                    p[i] - p[i - i % n + 1]
                } else {
                    p[i] as int
                };
            &&& p.len() == row_bytes * height
            &&& body.len() == p.len() - n
            &&& forall|k: int| 0 <= k < n ==> #[trigger] seed[4 - n + k] == v(k) % 256
            &&& forall|j: int|
                0 <= j < body.len() ==> {
                    let i = if decorrelate && j % n == 0 {
                        n + j + 1
                    } else if decorrelate && j % n == 1 {
                        n + j - 1
                    } else {
                        n + j
                    };
                    #[trigger] body[j] == (if predictor is Gradient && i >= row_bytes + n {
                        v(i) - v(i - n) - v(i - row_bytes) + v(i - row_bytes - n)
                    } else if predictor is Gradient && i >= row_bytes {
                        v(i) - v(i - n) - v(i - row_bytes)
                    } else {
                        v(i) - v(i - n)
                    }) % 256
                }
        }),
{
    let n = unit(family);
    let r = field_residuals(family, predictor, decorrelate, row_bytes, height, p);
    let v = |i: int|
        if decorrelate && (i % n == 0 || i % n == 2) {
            p[i] - p[i - i % n + 1]
        } else {
            p[i] as int
        };
    assert forall|i: int| #[trigger] v(i) == colour(p, n, decorrelate, i) by {}
    lemma_rows_of_pixels(n, row_bytes, height);
    lemma_rows_of_pixels(n, n, 1);
    assert forall|k: int| 0 <= k < n implies #[trigger] seed[4 - n + k] == v(k) % 256 by {
        assert(r[k] == first_pixel(family, seed)[k]);
        lemma_whole_pixel_fits(n, p.len() as int, k);
        lemma_colour(p, n, decorrelate, k);
        assert(k < row_bytes);
    }
    assert forall|j: int| 0 <= j < body.len() implies {
        let i = if decorrelate && j % n == 0 {
            n + j + 1
        } else if decorrelate && j % n == 1 {
            n + j - 1
        } else {
            n + j
        };
        #[trigger] body[j] == (if predictor is Gradient && i >= row_bytes + n {
            v(i) - v(i - n) - v(i - row_bytes) + v(i - row_bytes - n)
        } else if predictor is Gradient && i >= row_bytes {
            v(i) - v(i - n) - v(i - row_bytes)
        } else {
            v(i) - v(i - n)
        }) % 256
    } by {
        let i = if decorrelate && j % n == 0 {
            n + j + 1
        } else if decorrelate && j % n == 1 {
            n + j - 1
        } else {
            n + j
        };
        assert(wire_place(family, decorrelate, j) == i - n) by {
            reveal(wire_place);
        }
        assert(r[n + wire_place(family, decorrelate, j)] == body[j]);
        lemma_in_body(n, body.len() as int, j);
        lemma_rgb_at(family, predictor, decorrelate, row_bytes, height, p, i);
    }
}

/// A pixel that starts within whole pixels ends within them.
proof fn lemma_whole_pixel_fits(n: int, len: int, i: int)
    requires
        n == 3 || n == 4,
        len % n == 0,
        0 <= i < len,
    ensures
        i - i % n + n <= len,
{
}

/// The two bytes that change places lie within whole pixels.
proof fn lemma_in_body(n: int, len: int, j: int)
    requires
        n == 3 || n == 4,
        (len + n) % n == 0,
        0 <= j < len,
    ensures
        j % n == 0 ==> j + 1 < len,
        j % n == 1 ==> j >= 1,
{
}

/// With gradient prediction, rows that repeat the row above have only zero
/// residuals, from the third row on in every byte, and in the second row from its
/// second pixel on.
pub proof fn law_equal_rows_vanish(
    family: PixelFamily,
    decorrelate: bool,
    row_bytes: int,
    height: int,
    p: Seq<u8>,
    seed: Seq<u8>,
    body: Seq<u8>,
    i: int,
)
    requires
        family.rgb(),
        row_bytes > 0,
        row_bytes % unit(family) == 0,
        carries(family, Predictor::Gradient, decorrelate, row_bytes, height, p, seed, body),
        forall|k: int| row_bytes <= k < p.len() ==> #[trigger] p[k] == p[k - row_bytes],
        row_bytes + unit(family) <= i < p.len(),
    ensures
        ({
            let n = unit(family);
            let j = if decorrelate && i % n == 0 {
                i - n + 1
            } else if decorrelate && i % n == 1 {
                i - n - 1
            } else {
                i - n
            };
            body[j] == 0
        }),
{
    let n = unit(family);
    law_rgb_bytes(family, Predictor::Gradient, decorrelate, row_bytes, height, p, seed, body);
    let len = p.len() as int;
    lemma_rows_of_pixels(n, row_bytes, height);
    let j = if decorrelate && i % n == 0 {
        i - n + 1
    } else if decorrelate && i % n == 1 {
        i - n - 1
    } else {
        i - n
    };
    lemma_whole_pixel_fits(n, len, i);
    lemma_row_shift(n, row_bytes, i);
    lemma_row_shift(n, row_bytes, i - n);
    assert(0 <= j < body.len());
    assert(p[i] == p[i - row_bytes] && p[i - n] == p[i - n - row_bytes]);
    assert(p[i - i % n + 1] == p[i - i % n + 1 - row_bytes]);
    assert(p[i - n - i % n + 1] == p[i - n - i % n + 1 - row_bytes]);
    assert(body[j] == body[j]);
}

/// Going up a row stays in the same column.
proof fn lemma_row_shift(n: int, row_bytes: int, i: int)
    requires
        n == 3 || n == 4,
        row_bytes % n == 0,
        i >= row_bytes,
    ensures
        (i - row_bytes) % n == i % n,
        (i - n) % n == i % n,
        (i - row_bytes - n) % n == i % n,
        i - i % n >= row_bytes,
{
    if n == 3 {
        assert(row_bytes % 3 == 0);
        assert((i - row_bytes) % 3 == i % 3);
    } else {
        assert(row_bytes % 4 == 0);
        assert((i - row_bytes) % 4 == i % 4);
    }
}

// ---------------------------------------------------------------------------
// Codewords
// ---------------------------------------------------------------------------

/// A symbol that is found has its codeword at the top of the window.
proof fn lemma_found_is_shown(entries: Seq<HuffEntry>, w: u32, long: bool, from: int)
    requires
        0 <= from,
    ensures
        first_match(entries, w, long, from) matches Some(s) ==> from <= s < entries.len() && shows(
            entries[s],
            w,
        ),
    decreases entries.len() - from,
{
    if from < entries.len() {
        lemma_found_is_shown(entries, w, long, from + 1);
    }
}

/// The codebook of the `j`-th codeword of a field: for YUY2 the first serves
/// luma, the second and the third the two chroma components; for RGB the first
/// serves blue, the second green, the third red and alpha, and green comes first
/// where colours are decorrelated.
spec fn book_of(
    books: Codebooks,
    family: PixelFamily,
    decorrelate: bool,
    j: int,
) -> Seq<HuffEntry> {
    match family {
        PixelFamily::Yuy2 => if j % 4 == 1 {
            books.second
        } else if j % 4 == 3 {
            books.third
        } else {
            books.first
        },
        PixelFamily::Rgb24 => if j % 3 == 2 {
            books.third
        } else if (j % 3 == 1) != decorrelate {
            books.second
        } else {
            books.first
        },
        PixelFamily::Rgb32 => if j % 4 >= 2 {
            books.third
        } else if (j % 4 == 1) != decorrelate {
            books.second
        } else {
            books.first
        },
    }
}

/// `at` lists where codewords of the symbols `body` start in the bit stream of
/// `data`, and where the last one ends: they follow each other without a gap.
spec fn is_codeword_chain(
    books: Codebooks,
    family: PixelFamily,
    decorrelate: bool,
    data: Seq<u8>,
    body: Seq<u8>,
    at: Seq<nat>,
) -> bool {
    &&& at.len() == body.len() + 1
    &&& at[0] == 0
    &&& forall|j: int|
        0 <= j < body.len() ==> {
            let e = book_of(books, family, decorrelate, j)[#[trigger] body[j] as int];
            &&& 1 <= e.length <= 32
            &&& at[j + 1] == at[j] + e.length
            &&& window_at(data, at[j] as int) >> ((32 - e.length) as u32) == e.code >> ((32
                - e.length) as u32)
        }
}

/// Symbols are read codeword by codeword.
proof fn lemma_symbols_chain(
    books: Codebooks,
    family: PixelFamily,
    decorrelate: bool,
    data: Seq<u8>,
    n: nat,
) -> (at: Seq<nat>)
    requires
        symbols(books, family, decorrelate, data, n) is Some,
        books.first.len() == 256 && books.second.len() == 256 && books.third.len() == 256,
    ensures
        symbols(books, family, decorrelate, data, n) matches Some((body, pos)) && body.len() == n
            && is_codeword_chain(books, family, decorrelate, data, body, at) && at.last() == pos,
    decreases n,
{
    if n == 0 {
        seq![0nat]
    } else {
        let k = (n - 1) as nat;
        let before = lemma_symbols_chain(books, family, decorrelate, data, k);
        let (body, pos) = symbols(books, family, decorrelate, data, k).unwrap();
        let (more, end) = symbols(books, family, decorrelate, data, n).unwrap();
        let entries = books.slot(slot_of(family, decorrelate, n - 1));
        let w = window_at(data, pos as int);
        lemma_found_is_shown(entries, w, false, 0);
        lemma_found_is_shown(entries, w, true, 0);
        let at = before.push(end);
        assert(entries == book_of(books, family, decorrelate, n - 1)) by {
            reveal(slot_of);
        }
        lemma_lookup_symbol(entries, w);
        assert forall|j: int| 0 <= j < more.len() implies {
            let e = book_of(books, family, decorrelate, j)[#[trigger] more[j] as int];
            &&& 1 <= e.length <= 32
            &&& at[j + 1] == at[j] + e.length
            &&& window_at(data, at[j] as int) >> ((32 - e.length) as u32) == e.code >> ((32
                - e.length) as u32)
        } by {
            if j < n - 1 {
                assert(more[j] == body[j]);
            }
        }
        at
    }
}

/// What is found is a byte, and has the length that is returned.
proof fn lemma_lookup_symbol(entries: Seq<HuffEntry>, w: u32)
    requires
        entries.len() <= 256,
    ensures
        lookup(entries, w) matches Some((s, len)) ==> s < entries.len() && shows(
            entries[s as int],
            w,
        ) && len == entries[s as int].length,
{
    lemma_found_is_shown(entries, w, false, 0);
    lemma_found_is_shown(entries, w, true, 0);
}

/// Decoding a field reads codewords one after another from behind its first four
/// bytes, each from the codebook of its place, and what they and the four bytes
/// stand for is the raster. For YUY2 the first codebook serves luma, the second
/// and the third the two chroma components; for RGB the first serves blue, the
/// second green, the third red and alpha, and green comes first where colours are
/// decorrelated.
pub proof fn law_field_codewords(
    books: Codebooks,
    family: PixelFamily,
    predictor: Predictor,
    decorrelate: bool,
    width: u32,
    height: u32,
    bytes: Seq<u8>,
    p: Seq<u8>,
) -> (r: (Seq<u8>, Seq<nat>))
    requires
        field_decodes_to(books, family, predictor, decorrelate, width, height, bytes, p),
        books.first.len() == 256 && books.second.len() == 256 && books.third.len() == 256,
    ensures
        ({
            let (body, at) = r;
            let step = match family {
                PixelFamily::Yuy2 => 2int,
                PixelFamily::Rgb24 => 3,
                PixelFamily::Rgb32 => 4,
            };
            &&& carries(
                family,
                predictor,
                decorrelate,
                width * step,
                height as int,
                p,
                bytes.subrange(0, 4),
                body,
            )
            &&& at.len() == body.len() + 1
            &&& at[0] == 0
            &&& forall|j: int|
                0 <= j < body.len() ==> {
                    let book = match family {
                        PixelFamily::Yuy2 => if j % 4 == 1 {
                            books.second
                        } else if j % 4 == 3 {
                            books.third
                        } else {
                            books.first
                        },
                        PixelFamily::Rgb24 => if j % 3 == 2 {
                            books.third
                        } else if (j % 3 == 1) != decorrelate {
                            books.second
                        } else {
                            books.first
                        },
                        PixelFamily::Rgb32 => if j % 4 >= 2 {
                            books.third
                        } else if (j % 4 == 1) != decorrelate {
                            books.second
                        } else {
                            books.first
                        },
                    };
                    let e = book[#[trigger] body[j] as int];
                    &&& 1 <= e.length <= 32
                    &&& at[j + 1] == at[j] + e.length
                    &&& window_at(bytes.subrange(4, bytes.len() as int), at[j] as int) >> ((32
                        - e.length) as u32) == e.code >> ((32 - e.length) as u32)
                }
            &&& field_symbols(books, family, decorrelate, width, height, bytes) == Some(
                (body, at.last()),
            )
        }),
{
    let data = bytes.subrange(4, bytes.len() as int);
    let n = (crate::layout::raster_len(family, width, height) - unit(family)) as nat;
    let at = lemma_symbols_chain(books, family, decorrelate, data, n);
    let (body, pos) = symbols(books, family, decorrelate, data, n).unwrap();
    (body, at)
}

// ---------------------------------------------------------------------------
// Frames
// ---------------------------------------------------------------------------

/// What a method predicts from, and whether it decorrelates colours.
proof fn lemma_method_parts(method: Method)
    ensures
        method.spec_predictor() == (match method {
            Method::PredictOld | Method::Left | Method::LeftDecorr => Predictor::Left,
            Method::Gradient | Method::GradientDecorr => Predictor::Gradient,
            Method::Median => Predictor::Median,
        }),
        method.decorrelates() == (match method {
            Method::LeftDecorr | Method::GradientDecorr => true,
            _ => false,
        }),
{
}

/// A frame of up to 288 rows is one field. A taller one is two: its even rows, and
/// behind the last word of their codewords its odd rows.
pub proof fn law_frame_fields(
    books: Codebooks,
    info: StreamInfo,
    bytes: Seq<u8>,
    p: Seq<u8>,
) -> (f: (Seq<u8>, Seq<u8>))
    requires
        stream_books(info) == Some(books),
        frame_decodes_to(info, bytes, p),
        info.width > 0,
    ensures
        ({
            let predictor = match info.method {
                Method::PredictOld | Method::Left | Method::LeftDecorr => Predictor::Left,
                Method::Gradient | Method::GradientDecorr => Predictor::Gradient,
                Method::Median => Predictor::Median,
            };
            let decorrelate = info.method is LeftDecorr || info.method is GradientDecorr;
            let row = info.width * (match info.family {
                PixelFamily::Yuy2 => 2int,
                PixelFamily::Rgb24 => 3,
                PixelFamily::Rgb32 => 4,
            });
            let (top, bot) = (((info.height + 1) / 2) as u32, info.height / 2);
            &&& p.len() == row * info.height
            &&& info.height <= 288 ==> field_decodes_to(
                books,
                info.family,
                predictor,
                decorrelate,
                info.width,
                info.height,
                bytes,
                p,
            )
            &&& info.height > 288 ==> {
                &&& f.0.len() == row * top
                &&& f.1.len() == row * bot
                &&& forall|k: int, c: int|
                    #![trigger f.0[row * k + c]]
                    0 <= k < top && 0 <= c < row ==> f.0[row * k + c] == p[row * (2 * k) + c]
                &&& forall|k: int, c: int|
                    #![trigger f.1[row * k + c]]
                    0 <= k < bot && 0 <= c < row ==> f.1[row * k + c] == p[row * (2 * k + 1) + c]
                &&& field_decodes_to(
                    books,
                    info.family,
                    predictor,
                    decorrelate,
                    info.width,
                    top,
                    bytes,
                    f.0,
                )
                &&& field_symbols(books, info.family, decorrelate, info.width, top, bytes) matches Some(
                    (_, bits),
                ) && field_decodes_to(
                    books,
                    info.family,
                    predictor,
                    decorrelate,
                    info.width,
                    bot,
                    bytes.subrange(
                        if 4 + 4 * ((bits + 31) / 32) < bytes.len() {
                            4 + 4 * ((bits + 31) as int / 32)
                        } else {
                            bytes.len() as int
                        },
                        bytes.len() as int,
                    ),
                    f.1,
                )
            }
        }),
{
    lemma_method_parts(info.method);
    let row = info.width * info.family.step();
    let h = info.height as int;
    if info.height > 288 {
        lemma_rows_of_fields(p, row, h);
    }
    (field(p, row, h, 0), field(p, row, h, 1))
}

/// The even rows of a raster make its first field, the odd rows its second.
proof fn lemma_rows_of_fields(p: Seq<u8>, row: int, h: int)
    requires
        row > 0,
        h >= 0,
    ensures
        ({
            let (f0, f1) = (field(p, row, h, 0), field(p, row, h, 1));
            &&& f0.len() == row * ((h + 1) / 2)
            &&& f1.len() == row * (h / 2)
            &&& forall|k: int, c: int|
                #![trigger f0[row * k + c]]
                0 <= k < (h + 1) / 2 && 0 <= c < row ==> f0[row * k + c] == p[row * (2 * k) + c]
            &&& forall|k: int, c: int|
                #![trigger f1[row * k + c]]
                0 <= k < h / 2 && 0 <= c < row ==> f1[row * k + c] == p[row * (2 * k + 1) + c]
        }),
{
    let (f0, f1) = (field(p, row, h, 0), field(p, row, h, 1));
    let (top, bot) = ((h + 1) / 2, h / 2);
    assert(row * top >= 0 && row * bot >= 0) by (nonlinear_arith)
        requires
            row >= 0,
            top >= 0,
            bot >= 0,
    ;
    assert forall|k: int, c: int|
        #![trigger f0[row * k + c]]
        0 <= k < top && 0 <= c < row implies f0[row * k + c] == p[row * (2 * k) + c] by {
        lemma_row_and_column(row, top, k, c);
    }
    assert forall|k: int, c: int|
        #![trigger f1[row * k + c]]
        0 <= k < bot && 0 <= c < row implies f1[row * k + c] == p[row * (2 * k + 1) + c] by {
        lemma_row_and_column(row, bot, k, c);
    }
}

/// A place in a raster tells its row and its column.
pub proof fn lemma_row_and_column(row: int, rows: int, k: int, c: int)
    requires
        0 <= k < rows,
        0 <= c < row,
    ensures
        0 <= row * k + c < row * rows,
        (row * k + c) / row == k,
        (row * k + c) % row == c,
{
    assert(row * k == k * row) by (nonlinear_arith);
    vstd::arithmetic::div_mod::lemma_fundamental_div_mod_converse(row * k + c, row, k, c);
    assert(0 <= row * k && row * k + row <= row * rows) by (nonlinear_arith)
        requires
            0 <= k < rows,
            0 < row,
    ;
}

} // verus!
