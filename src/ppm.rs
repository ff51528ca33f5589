use vstd::prelude::*;

verus! {

pub const NEWLINE: u8 = 10;

pub const SPACE: u8 = 32;

pub const DIGIT_2: u8 = 50;

pub const DIGIT_3: u8 = 51;

pub const DIGIT_5: u8 = 53;

pub const LETTER_P: u8 = 80;

/// ASCII decimal digits of `n`, most significant first, without leading zeros.
pub open spec fn decimal(n: nat) -> Seq<u8>
    decreases n,
{
    if n < 10 {
        seq![(48 + n) as u8]
    } else {
        decimal(n / 10).push((48 + n % 10) as u8)
    }
}

/// First lines of a plain-text portable pixmap: the magic `P3`, the width and
/// the height, the largest channel value 255, and an empty line.
pub open spec fn ppm_header(width: nat, height: nat) -> Seq<u8> {
    seq![LETTER_P, DIGIT_3, NEWLINE] + decimal(width) + seq![SPACE] + decimal(height) + seq![
        NEWLINE,
        DIGIT_2,
        DIGIT_5,
        DIGIT_5,
        NEWLINE,
        NEWLINE,
    ]
}

/// Text of channel value `i`: its decimal digits and a space, and a line break
/// after every third value and after the last one.
pub open spec fn ppm_value(samples: Seq<u8>, i: int) -> Seq<u8> {
    let end = if i % 3 == 2 || i == samples.len() - 1 {
        seq![NEWLINE]
    } else {
        Seq::<u8>::empty()
    };
    decimal(samples[i] as nat) + seq![SPACE] + end
}

/// Text of the first `k` channel values.
pub open spec fn ppm_values(samples: Seq<u8>, k: int) -> Seq<u8>
    decreases k,
{
    if k <= 0 {
        Seq::<u8>::empty()
    } else {
        ppm_values(samples, k - 1) + ppm_value(samples, k - 1)
    }
}

/// The whole plain-text pixmap of an image given as channel values, three per
/// pixel, row by row from the top.
pub open spec fn ppm_spec(samples: Seq<u8>, width: nat, height: nat) -> Seq<u8> {
    ppm_header(width, height) + ppm_values(samples, samples.len() as int)
}

fn push_decimal(out: &mut Vec<u8>, n: u32)
    ensures
        final(out)@ == old(out)@ + decimal(n as nat),
    decreases n,
{
    if n >= 10 {
        push_decimal(out, n / 10);
    }
    out.push((48 + n % 10) as u8);
    proof {
        if n < 10 {
            assert(n % 10 == n);
        }
    }
}

/// The image as a plain-text portable pixmap (`P3`), with channel values
/// 0 to 255 and one pixel per line.
pub fn ppm_text(image: &Vec<u8>, width: u32, height: u32) -> (r: Vec<u8>)
    ensures
        r@ == ppm_spec(image@, width as nat, height as nat),
{
    let mut out: Vec<u8> = Vec::new();
    out.push(LETTER_P);
    out.push(DIGIT_3);
    out.push(NEWLINE);
    push_decimal(&mut out, width);
    out.push(SPACE);
    push_decimal(&mut out, height);
    out.push(NEWLINE);
    out.push(DIGIT_2);
    out.push(DIGIT_5);
    out.push(DIGIT_5);
    out.push(NEWLINE);
    out.push(NEWLINE);
    assert(out@ =~= ppm_header(width as nat, height as nat));
    let mut i: usize = 0;
    while i < image.len()
        invariant
            i <= image.len(),
            out@ == ppm_header(width as nat, height as nat) + ppm_values(image@, i as int),
        decreases image.len() - i,
    {
        let ghost before = out@;
        push_decimal(&mut out, image[i] as u32);
        out.push(SPACE);
        if i % 3 == 2 || i == image.len() - 1 {
            out.push(NEWLINE);
        }
        assert(out@ =~= before + ppm_value(image@, i as int));
        i = i + 1;
        assert(ppm_values(image@, i as int) == ppm_values(image@, i - 1) + ppm_value(
            image@,
            i - 1,
        ));
        assert(out@ =~= ppm_header(width as nat, height as nat) + ppm_values(image@, i as int));
    }
    out
}

} // verus!
