//! Small helpers around the codec: path-name assembly and the sample
//! gradient image that the demo writes out.

use vstd::prelude::*;
use vstd::string::StringExecFns;
use crate::canvas::Canvas;
use crate::canvas::Pixel;

verus! {

/// Joins a directory, a file name and the `.ppm` extension into one path
/// string. Resolving and writing the path belongs to the caller.
pub fn complete_path(directory: &str, file_name: &str) -> (r: String)
    ensures
        r@ == directory@ + "/"@ + file_name@ + ".ppm"@,
{
    let mut r = directory.to_owned();
    r.append("/");
    r.append(file_name);
    r.append(".ppm");
    r
}

/// The demo gradient: red grows with the row, green with the column, blue
/// stays zero. Both quotients lie below 256, so the casts lose nothing.
pub open spec fn sample_pixel(row: int, col: int, width: int, height: int) -> Pixel {
    Pixel { r: (row * 256 / height) as u8, g: (col * 256 / width) as u8, b: 0 }
}

/// Builds the sample gradient canvas that the demo images are generated
/// from, filling every cell through the bounds-checked accessor.
#[verifier::loop_isolation(false)]
pub fn generate_sample_canvas(width: usize, height: usize) -> (c: Canvas)
    requires
        width * height <= usize::MAX,
        width <= usize::MAX / 256,
        height <= usize::MAX / 256,
    ensures
        c.wf(),
        c.width == width,
        c.height == height,
        forall|row: int, col: int|
            0 <= row < height && 0 <= col < width ==> c.data@[row * width + col] == sample_pixel(
                row,
                col,
                width as int,
                height as int,
            ),
{
    let mut c = Canvas::new(width, height);
    let mut row: usize = 0;
    while row < height
        invariant
            row <= height,
            c.wf(),
            c.width == width,
            c.height == height,
            forall|rr: int, cc: int|
                0 <= rr < row && 0 <= cc < width ==> c.data@[rr * width + cc] == sample_pixel(
                    rr,
                    cc,
                    width as int,
                    height as int,
                ),
        decreases height - row,
    {
        let mut col: usize = 0;
        while col < width
            invariant
                row < height,
                col <= width,
                c.wf(),
                c.width == width,
                c.height == height,
                forall|rr: int, cc: int|
                    0 <= rr < row && 0 <= cc < width ==> c.data@[rr * width + cc] == sample_pixel(
                        rr,
                        cc,
                        width as int,
                        height as int,
                    ),
                forall|cc: int|
                    0 <= cc < col ==> c.data@[row as int * width + cc] == sample_pixel(
                        row as int,
                        cc,
                        width as int,
                        height as int,
                    ),
            decreases width - col,
        {
            proof {
                assert(row as int * 256 / (height as int) < 256) by (nonlinear_arith)
                    requires
                        0 <= row < height,
                ;
                assert(col as int * 256 / (width as int) < 256) by (nonlinear_arith)
                    requires
                        0 <= col < width,
                ;
            }
            let r8 = (row * 256 / height) as u8;
            let g8 = (col * 256 / width) as u8;
            let p = Pixel { r: r8, g: g8, b: 0 };
            let ghost before = c.data@;
            let res = c.set(row, col, p);
            proof {
                assert(res is Ok);
                assert(c.data@[row as int * width + col as int] == p);
                assert forall|rr: int, cc: int|
                    0 <= rr < row && 0 <= cc < width implies c.data@[rr * width + cc]
                    == sample_pixel(rr, cc, width as int, height as int) by {
                    assert(rr * width + cc < row as int * width + col as int)
                        by (nonlinear_arith)
                        requires
                            0 <= rr < row,
                            0 <= cc < width,
                            0 <= col,
                    ;
                    assert(before[rr * width + cc] == sample_pixel(
                        rr,
                        cc,
                        width as int,
                        height as int,
                    ));
                }
                assert forall|cc: int|
                    0 <= cc < col + 1 implies c.data@[row as int * width + cc] == sample_pixel(
                    row as int,
                    cc,
                    width as int,
                    height as int,
                ) by {
                    if cc == col {
                        assert(sample_pixel(row as int, col as int, width as int, height as int)
                            == p);
                    } else {
                        assert(before[row as int * width + cc] == sample_pixel(
                            row as int,
                            cc,
                            width as int,
                            height as int,
                        ));
                    }
                }
            }
            col = col + 1;
        }
        row = row + 1;
    }
    c
}

} // verus!

